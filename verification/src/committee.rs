//! The weighted validator set: stake lookup, quorum and validity thresholds,
//! and stake-weighted sampling and shuffling.
//!
//! A committee is immutable for its epoch; an epoch change produces a new
//! value. The quorum threshold Q = floor(2S/3) + 1 and the validity threshold
//! V = floor(S/3) + 1 satisfy Q + V > S, so any two quorums intersect in a
//! validator whose stake counts on both sides.

use vstd::prelude::*;

use crate::base_types::{AuthorityName, EpochId, StakeUnit};
use crate::error::AggregateError;
use crate::rng::draw_below;

verus! {

/// Sum of the stakes in a sequence of voting rights.
pub open spec fn stakes_sum(s: Seq<(AuthorityName, StakeUnit)>) -> int
    decreases s.len(),
{
    if s.len() == 0 {
        0
    } else {
        stakes_sum(s.drop_last()) + s.last().1
    }
}

/// Stake that a sequence of voting rights assigns to `name` (0 when absent;
/// duplicated entries would sum, but a well-formed committee has none).
pub open spec fn stake_in(s: Seq<(AuthorityName, StakeUnit)>, name: AuthorityName) -> int
    decreases s.len(),
{
    if s.len() == 0 {
        0
    } else {
        stake_in(s.drop_last(), name) + if s.last().0 == name {
            s.last().1 as int
        } else {
            0
        }
    }
}

/// The sum of stakes over a prefix grows by the stake of the row appended.
pub proof fn lemma_stakes_sum_take_step(s: Seq<(AuthorityName, StakeUnit)>, i: int)
    requires
        0 <= i < s.len(),
    ensures
        stakes_sum(s.take(i + 1)) == stakes_sum(s.take(i)) + s[i].1,
{
    assert(s.take(i + 1).drop_last() =~= s.take(i));
    assert(s.take(i + 1).last() == s[i]);
}

/// `stake_in` over a prefix grows by the appended row's stake when it matches.
pub proof fn lemma_stake_in_take_step(s: Seq<(AuthorityName, StakeUnit)>, i: int, name: AuthorityName)
    requires
        0 <= i < s.len(),
    ensures
        stake_in(s.take(i + 1), name) == stake_in(s.take(i), name) + if s[i].0 == name {
            s[i].1 as int
        } else {
            0
        },
{
    assert(s.take(i + 1).drop_last() =~= s.take(i));
    assert(s.take(i + 1).last() == s[i]);
}

/// Stake sums are non-negative.
pub proof fn lemma_stakes_sum_nonneg(s: Seq<(AuthorityName, StakeUnit)>)
    ensures
        stakes_sum(s) >= 0,
    decreases s.len(),
{
    if s.len() > 0 {
        lemma_stakes_sum_nonneg(s.drop_last());
    }
}

/// `stake_in` is non-negative.
pub proof fn lemma_stake_in_nonneg(s: Seq<(AuthorityName, StakeUnit)>, name: AuthorityName)
    ensures
        stake_in(s, name) >= 0,
    decreases s.len(),
{
    if s.len() > 0 {
        lemma_stake_in_nonneg(s.drop_last(), name);
    }
}

/// A name absent from the rows is assigned zero stake.
pub proof fn lemma_stake_in_absent(s: Seq<(AuthorityName, StakeUnit)>, name: AuthorityName)
    requires
        forall|i: int| 0 <= i < s.len() ==> s[i].0 != name,
    ensures
        stake_in(s, name) == 0,
    decreases s.len(),
{
    if s.len() > 0 {
        lemma_stake_in_absent(s.drop_last(), name);
    }
}

/// Peeling one row off the front of a stake sum.
pub proof fn lemma_stakes_sum_front(s: Seq<(AuthorityName, StakeUnit)>)
    requires
        s.len() > 0,
    ensures
        stakes_sum(s) == s[0].1 + stakes_sum(s.skip(1)),
    decreases s.len(),
{
    if s.len() == 1 {
        assert(s.drop_last() =~= Seq::<(AuthorityName, StakeUnit)>::empty());
        assert(s.skip(1) =~= Seq::<(AuthorityName, StakeUnit)>::empty());
    } else {
        lemma_stakes_sum_front(s.drop_last());
        assert(s.drop_last().skip(1) =~= s.skip(1).drop_last());
        assert(s.skip(1).last() == s.last());
        assert(s.drop_last()[0] == s[0]);
    }
}

/// The weighted validator set for one epoch: a sorted list of (name, stake)
/// rows and the cached total stake.
#[derive(Clone, Debug, PartialEq, Eq)]
pub struct Committee {
    pub epoch: EpochId,
    /// Voting rights, strictly sorted by name, every stake at least 1.
    pub voting_rights: Vec<(AuthorityName, StakeUnit)>,
    /// Cached sum of all stakes.
    pub total_votes: StakeUnit,
}

impl Committee {
    /// Internal invariant: at least one validator, names strictly increasing
    /// (hence unique), positive stakes, and a correct cached total.
    pub open spec fn well_formed(self) -> bool {
        &&& self.voting_rights@.len() >= 1
        &&& forall|i: int, j: int|
            0 <= i < j < self.voting_rights@.len() ==> self.voting_rights@[i].0
                < self.voting_rights@[j].0
        &&& forall|i: int| 0 <= i < self.voting_rights@.len() ==> self.voting_rights@[i].1 >= 1
        &&& self.total_votes == stakes_sum(self.voting_rights@)
    }

    /// The committee lists `name`.
    pub open spec fn contains_name(self, name: AuthorityName) -> bool {
        exists|i: int| 0 <= i < self.voting_rights@.len() && self.voting_rights@[i].0 == name
    }

    /// Stake of `name`, zero when unknown.
    pub open spec fn stake_of(self, name: AuthorityName) -> int {
        stake_in(self.voting_rights@, name)
    }

    /// The validator names, in committee order.
    pub open spec fn names_spec(self) -> Seq<AuthorityName> {
        Seq::new(self.voting_rights@.len(), |i: int| self.voting_rights@[i].0)
    }

    /// Quorum threshold Q = floor(2S/3) + 1.
    pub open spec fn quorum_threshold_spec(self) -> int {
        2 * (self.total_votes as int) / 3 + 1
    }

    /// Validity threshold V = floor(S/3) + 1, also written f + 1.
    pub open spec fn validity_threshold_spec(self) -> int {
        (self.total_votes as int) / 3 + 1
    }

    /// Builds a committee after checking the invariant: rows must be strictly
    /// sorted by name with positive stakes, at least one row, and the stakes
    /// must sum within the stake type. Returns the exact violation otherwise.
    pub fn new(epoch: EpochId, voting_rights: Vec<(AuthorityName, StakeUnit)>) -> (r: Result<
        Committee,
        AggregateError,
    >)
        ensures
            r is Ok ==> r->Ok_0.well_formed() && r->Ok_0.epoch == epoch
                && r->Ok_0.voting_rights@ == voting_rights@,
            r is Err ==> !(voting_rights@.len() >= 1 && (forall|i: int, j: int|
                0 <= i < j < voting_rights@.len() ==> voting_rights@[i].0 < voting_rights@[j].0)
                && (forall|i: int| 0 <= i < voting_rights@.len() ==> voting_rights@[i].1 >= 1)
                && stakes_sum(voting_rights@) <= u64::MAX),
    {
        if voting_rights.len() == 0 {
            return Err(AggregateError::InvalidCommittee);
        }
        let mut total: u64 = 0;
        let mut i: usize = 0;
        while i < voting_rights.len()
            invariant
                i <= voting_rights.len(),
                total == stakes_sum(voting_rights@.take(i as int)),
                forall|k: int, l: int|
                    0 <= k < l < i ==> voting_rights@[k].0 < voting_rights@[l].0,
                forall|k: int| 0 <= k < i ==> voting_rights@[k].1 >= 1,
            decreases voting_rights.len() - i,
        {
            let (name, stake) = voting_rights[i];
            if stake == 0 {
                return Err(AggregateError::InvalidCommittee);
            }
            if i > 0 && voting_rights[i - 1].0 >= name {
                return Err(AggregateError::InvalidCommittee);
            }
            total = match total.checked_add(stake) {
                Some(t) => t,
                None => {
                    proof {
                        lemma_stakes_sum_take_step(voting_rights@, i as int);
                        lemma_stakes_sum_is_suffix_bounded(voting_rights@, i + 1);
                    }
                    return Err(AggregateError::InvalidCommittee);
                },
            };
            proof {
                lemma_stakes_sum_take_step(voting_rights@, i as int);
            }
            i = i + 1;
        }
        proof {
            assert(voting_rights@.take(voting_rights@.len() as int) =~= voting_rights@);
        }
        Ok(Committee { epoch, voting_rights, total_votes: total })
    }

    /// The epoch this committee is valid for.
    pub fn epoch(&self) -> (e: EpochId)
        ensures
            e == self.epoch,
    {
        self.epoch
    }

    /// Constant-size lookup of a validator's stake; unknown names yield zero.
    pub fn weight(&self, name: &AuthorityName) -> (w: StakeUnit)
        requires
            self.well_formed(),
        ensures
            w == self.stake_of(*name),
    {
        let rows = &self.voting_rights;
        proof {
            assert(rows@.skip(0) =~= rows@);
        }
        let mut acc: u64 = 0;
        let mut i: usize = 0;
        while i < rows.len()
            invariant
                i <= rows@.len(),
                acc == stake_in(rows@.take(i as int), *name),
                stake_in(rows@.take(i as int), *name) <= stakes_sum(rows@.take(i as int)),
                stakes_sum(rows@.take(i as int)) + stakes_sum_suffix(rows@, i as int) == stakes_sum(
                    rows@,
                ),
                stakes_sum(rows@) <= u64::MAX,
            decreases rows@.len() - i,
        {
            proof {
                lemma_stake_in_take_step(rows@, i as int, *name);
                lemma_stakes_sum_take_step(rows@, i as int);
                lemma_stakes_sum_suffix_step(rows@, i as int);
                lemma_stakes_sum_suffix_nonneg(rows@, i as int + 1);
            }
            if rows[i].0 == *name {
                acc = acc + rows[i].1;
            }
            i = i + 1;
        }
        proof {
            assert(rows@.take(rows@.len() as int) =~= rows@);
        }
        acc
    }

    /// The quorum threshold Q.
    pub fn quorum_threshold(&self) -> (q: StakeUnit)
        ensures
            q == self.quorum_threshold_spec(),
    {
        let twice: u128 = 2u128 * (self.total_votes as u128);
        let third: u128 = twice / 3;
        proof {
            assert(third <= self.total_votes) by {
                assert(3 * ((2 * (self.total_votes as int)) / 3) <= 2 * (self.total_votes as int));
            };
        }
        (third as u64) + 1
    }

    /// The validity threshold V.
    pub fn validity_threshold(&self) -> (v: StakeUnit)
        ensures
            v == self.validity_threshold_spec(),
    {
        proof {
            assert((self.total_votes as int) / 3 <= self.total_votes as int);
        }
        (self.total_votes / 3) + 1
    }

    /// A field-for-field copy of the committee.
    pub fn duplicate(&self) -> (d: Committee)
        ensures
            d.epoch == self.epoch,
            d.total_votes == self.total_votes,
            d.voting_rights@ == self.voting_rights@,
            d.well_formed() == self.well_formed(),
    {
        let mut rows: Vec<(AuthorityName, StakeUnit)> = Vec::new();
        let mut i: usize = 0;
        while i < self.voting_rights.len()
            invariant
                i <= self.voting_rights@.len(),
                rows@ == self.voting_rights@.take(i as int),
            decreases self.voting_rights@.len() - i,
        {
            rows.push(self.voting_rights[i]);
            proof {
                assert(self.voting_rights@.take(i + 1) =~= self.voting_rights@.take(
                    i as int,
                ).push(self.voting_rights@[i as int]));
            }
            i = i + 1;
        }
        proof {
            assert(self.voting_rights@.take(self.voting_rights@.len() as int)
                =~= self.voting_rights@);
        }
        Committee { epoch: self.epoch, voting_rights: rows, total_votes: self.total_votes }
    }

    /// Decides the committee invariant at runtime, for callers that hold a
    /// committee Verus has not tracked.
    pub fn well_formed_check(&self) -> (r: bool)
        ensures
            r == self.well_formed(),
    {
        let rows = &self.voting_rights;
        if rows.len() == 0 {
            return false;
        }
        let mut total: u64 = 0;
        let mut i: usize = 0;
        while i < rows.len()
            invariant
                i <= rows@.len(),
                rows@ == self.voting_rights@,
                total == stakes_sum(rows@.take(i as int)),
                forall|k: int, l: int| 0 <= k < l < i ==> rows@[k].0 < rows@[l].0,
                forall|k: int| 0 <= k < i ==> rows@[k].1 >= 1,
            decreases rows@.len() - i,
        {
            let (name, stake) = rows[i];
            if stake == 0 {
                return false;
            }
            if i > 0 && rows[i - 1].0 >= name {
                return false;
            }
            total = match total.checked_add(stake) {
                Some(t) => t,
                None => {
                    proof {
                        lemma_stakes_sum_take_step(rows@, i as int);
                        lemma_stakes_sum_is_suffix_bounded(rows@, i + 1);
                    }
                    return false;
                },
            };
            proof {
                lemma_stakes_sum_take_step(rows@, i as int);
            }
            i = i + 1;
        }
        proof {
            assert(rows@.take(rows@.len() as int) =~= rows@);
        }
        total == self.total_votes
    }

    /// The validator names, in sorted order.
    pub fn names(&self) -> (out: Vec<AuthorityName>)
        ensures
            out@ == self.names_spec(),
    {
        let mut out: Vec<AuthorityName> = Vec::new();
        let mut i: usize = 0;
        while i < self.voting_rights.len()
            invariant
                i <= self.voting_rights@.len(),
                out@.len() == i,
                forall|k: int| 0 <= k < i ==> out@[k] == self.voting_rights@[k].0,
            decreases self.voting_rights@.len() - i,
        {
            out.push(self.voting_rights[i].0);
            i = i + 1;
        }
        proof {
            assert(out@ =~= self.names_spec());
        }
        out
    }
}

/// Sum of the stakes of the rows from `i` on.
pub open spec fn stakes_sum_suffix(s: Seq<(AuthorityName, StakeUnit)>, i: int) -> int {
    stakes_sum(s.skip(i))
}

/// Peeling one row off the front of a suffix sum.
pub proof fn lemma_stakes_sum_suffix_step(s: Seq<(AuthorityName, StakeUnit)>, i: int)
    requires
        0 <= i < s.len(),
    ensures
        stakes_sum_suffix(s, i) == s[i].1 + stakes_sum_suffix(s, i + 1),
{
    lemma_stakes_sum_front(s.skip(i));
    assert(s.skip(i).skip(1) =~= s.skip(i + 1));
    assert(s.skip(i)[0] == s[i]);
}

/// Suffix sums are non-negative.
pub proof fn lemma_stakes_sum_suffix_nonneg(s: Seq<(AuthorityName, StakeUnit)>, i: int)
    requires
        0 <= i <= s.len(),
    ensures
        stakes_sum_suffix(s, i) >= 0,
{
    lemma_stakes_sum_nonneg(s.skip(i));
}

/// A prefix sum plus the stake of the next row is bounded by the whole sum.
pub proof fn lemma_stakes_sum_is_suffix_bounded(s: Seq<(AuthorityName, StakeUnit)>, i: int)
    requires
        0 <= i <= s.len(),
    ensures
        stakes_sum(s.take(i)) <= stakes_sum(s),
    decreases s.len() - i,
{
    if i == s.len() {
        assert(s.take(i) =~= s);
    } else {
        lemma_stakes_sum_take_step(s, i);
        lemma_stakes_sum_is_suffix_bounded(s, i + 1);
    }
}

/// Some sequence of voting rights names `n`.
pub open spec fn has_name(s: Seq<(AuthorityName, StakeUnit)>, n: AuthorityName) -> bool {
    exists|i: int| 0 <= i < s.len() && s[i].0 == n
}

/// No name occurs twice among the rows.
pub open spec fn names_distinct(s: Seq<(AuthorityName, StakeUnit)>) -> bool {
    forall|i: int, j: int| 0 <= i < j < s.len() ==> s[i].0 != s[j].0
}

/// Index of the row owning position `r` when the stake intervals are laid end
/// to end: row 0 owns [0, stake_0), row 1 the next stake_1 positions, and so on.
pub open spec fn sample_index(s: Seq<(AuthorityName, StakeUnit)>, r: int) -> int
    decreases s.len(),
{
    if s.len() == 0 {
        0
    } else if r < s[0].1 {
        0
    } else {
        1 + sample_index(s.skip(1), r - s[0].1)
    }
}

/// Name drawn by position `r` in the stake intervals.
pub open spec fn sample_spec(s: Seq<(AuthorityName, StakeUnit)>, r: int) -> AuthorityName {
    s[sample_index(s, r)].0
}

/// Prefix sums interact with peeling the first row.
proof fn lemma_take_front_glue(s: Seq<(AuthorityName, StakeUnit)>, k: int)
    requires
        1 <= k <= s.len(),
    ensures
        stakes_sum(s.take(k)) == s[0].1 + stakes_sum(s.skip(1).take(k - 1)),
{
    assert(s.take(k)[0] == s[0]);
    assert(s.take(k).skip(1) =~= s.skip(1).take(k - 1));
    lemma_stakes_sum_front(s.take(k));
}

/// A position inside the total stake lands on a real row, inside that row's
/// stake interval.
pub proof fn lemma_sample_index_bounds(s: Seq<(AuthorityName, StakeUnit)>, r: int)
    requires
        0 <= r < stakes_sum(s),
    ensures
        0 <= sample_index(s, r) < s.len(),
        stakes_sum(s.take(sample_index(s, r))) <= r < stakes_sum(s.take(sample_index(s, r)))
            + s[sample_index(s, r)].1,
    decreases s.len(),
{
    assert(s.len() > 0);
    if r < s[0].1 {
        assert(s.take(0) =~= Seq::<(AuthorityName, StakeUnit)>::empty());
    } else {
        lemma_stakes_sum_front(s);
        lemma_sample_index_bounds(s.skip(1), r - s[0].1);
        let i2 = sample_index(s.skip(1), r - s[0].1);
        lemma_take_front_glue(s, 1 + i2);
        assert(s[1 + i2] == s.skip(1)[i2]);
    }
}

/// Conversely, every position inside a row's stake interval draws that row.
pub proof fn lemma_sample_index_of_range(s: Seq<(AuthorityName, StakeUnit)>, i: int, r: int)
    requires
        0 <= i < s.len(),
        0 <= r,
        stakes_sum(s.take(i)) <= r < stakes_sum(s.take(i)) + s[i].1,
    ensures
        sample_index(s, r) == i,
    decreases i,
{
    if i == 0 {
        assert(s.take(0) =~= Seq::<(AuthorityName, StakeUnit)>::empty());
    } else {
        lemma_take_front_glue(s, i);
        lemma_stakes_sum_nonneg(s.skip(1).take(i - 1));
        assert(r >= s[0].1);
        lemma_sample_index_of_range(s.skip(1), i - 1, r - s[0].1);
        assert(s.skip(1)[i - 1] == s[i]);
    }
}

/// In a sorted committee the stake assigned to the i-th name is exactly the
/// i-th row's stake.
pub proof fn lemma_stake_in_unique(s: Seq<(AuthorityName, StakeUnit)>, i: int)
    requires
        names_distinct(s),
        0 <= i < s.len(),
    ensures
        stake_in(s, s[i].0) == s[i].1,
    decreases s.len(),
{
    if i == s.len() - 1 {
        assert(forall|k: int| 0 <= k < s.drop_last().len() ==> s.drop_last()[k].0 != s[i].0);
        lemma_stake_in_absent(s.drop_last(), s[i].0);
    } else {
        assert(s.drop_last()[i] == s[i]);
        lemma_stake_in_unique(s.drop_last(), i);
    }
}

/// The positions in the total stake that draw a given name are exactly that
/// name's stake interval, so a uniform draw picks each name with probability
/// proportional to its stake: of the `total_votes` possible draws, exactly
/// `stake_of(name)` yield `name`.
pub proof fn lemma_sample_weighted(c: Committee, name: AuthorityName)
    requires
        c.well_formed(),
        c.contains_name(name),
    ensures
        ({
            let picks = Set::new(
                |r: int| 0 <= r < c.total_votes && sample_spec(c.voting_rights@, r) == name,
            );
            picks.finite() && picks.len() == c.stake_of(name)
        }),
{
    let s = c.voting_rights@;
    let i = choose|i: int| #![trigger s[i]] 0 <= i < s.len() && s[i].0 == name;
    let lo = stakes_sum(s.take(i));
    let hi = lo + s[i].1;
    let picks = Set::new(|r: int| 0 <= r < c.total_votes && sample_spec(s, r) == name);
    lemma_stakes_sum_nonneg(s.take(i));
    lemma_stakes_sum_take_step(s, i);
    lemma_stakes_sum_is_suffix_bounded(s, i + 1);
    assert(stakes_sum(s.take(i + 1)) == hi);
    assert(hi <= c.total_votes);
    assert forall|r: int| picks.contains(r) implies vstd::set_lib::set_int_range(lo, hi).contains(
        r,
    ) by {
        lemma_sample_index_bounds(s, r);
        let j = sample_index(s, r);
        assert(s[j].0 == name);
        assert(j == i);
    }
    assert forall|r: int| vstd::set_lib::set_int_range(lo, hi).contains(r) implies picks.contains(
        r,
    ) by {
        lemma_sample_index_of_range(s, i, r);
    }
    assert(picks =~= vstd::set_lib::set_int_range(lo, hi));
    vstd::set_lib::lemma_int_range(lo, hi);
    lemma_stake_in_unique(s, i);
}

/// Sum of two concatenated row sequences.
pub proof fn lemma_stakes_sum_concat(a: Seq<(AuthorityName, StakeUnit)>, b: Seq<(AuthorityName, StakeUnit)>)
    ensures
        stakes_sum(a + b) == stakes_sum(a) + stakes_sum(b),
    decreases b.len(),
{
    if b.len() == 0 {
        assert(a + b =~= a);
    } else {
        lemma_stakes_sum_concat(a, b.drop_last());
        assert((a + b).drop_last() =~= a + b.drop_last());
        assert((a + b).last() == b.last());
    }
}

/// Removing a row subtracts its stake from the sum.
pub proof fn lemma_remove_stake(s: Seq<(AuthorityName, StakeUnit)>, i: int)
    requires
        0 <= i < s.len(),
    ensures
        stakes_sum(s.remove(i)) == stakes_sum(s) - s[i].1,
{
    assert(s.subrange(0, i) =~= s.take(i));
    assert(s.subrange(i + 1, s.len() as int) =~= s.skip(i + 1));
    lemma_stakes_sum_concat(s.take(i), s.skip(i + 1));
    assert(s =~= s.take(i) + s.skip(i));
    lemma_stakes_sum_concat(s.take(i), s.skip(i));
    lemma_stakes_sum_suffix_step(s, i);
}

/// Removing a row removes exactly its name from a duplicate-free row sequence.
pub proof fn lemma_remove_names(s: Seq<(AuthorityName, StakeUnit)>, i: int)
    requires
        names_distinct(s),
        0 <= i < s.len(),
    ensures
        s.remove(i).len() == s.len() - 1,
        names_distinct(s.remove(i)),
        forall|n: AuthorityName| #[trigger] has_name(s.remove(i), n) <==> (has_name(s, n) && n != s[i].0),
{
    s.remove_ensures(i);
    let t = s.remove(i);
    assert forall|k: int, l: int| 0 <= k < l < t.len() implies t[k].0 != t[l].0 by {
        let k0 = if k < i { k } else { k + 1 };
        let l0 = if l < i { l } else { l + 1 };
        assert(t[k] == s[k0]);
        assert(t[l] == s[l0]);
    }
    assert forall|n: AuthorityName| #[trigger] has_name(t, n) implies (has_name(s, n) && n != s[i].0) by {
        let k = choose|k: int| #![trigger t[k]] 0 <= k < t.len() && t[k].0 == n;
        let k0 = if k < i { k } else { k + 1 };
        assert(t[k] == s[k0]);
        assert(s[k0].0 == n);
        if k0 < i {
            assert(s[k0].0 != s[i].0);
        } else {
            assert(s[i].0 != s[k0].0);
        }
    }
    assert forall|n: AuthorityName| has_name(s, n) && n != s[i].0 implies #[trigger] has_name(
        t,
        n,
    ) by {
        let j = choose|j: int| #![trigger s[j]] 0 <= j < s.len() && s[j].0 == n;
        if j < i {
            assert(t[j] == s[j]);
        } else {
            assert(j != i);
            assert(t[j - 1] == s[j]);
        }
    }
}

/// Appending a row to a prefix extends the names it holds by that row's name.
pub proof fn lemma_has_name_take_step(s: Seq<(AuthorityName, StakeUnit)>, i: int)
    requires
        0 <= i < s.len(),
    ensures
        forall|n: AuthorityName| #[trigger] has_name(s.take(i + 1), n) <==> (has_name(s.take(i), n)
            || s[i].0 == n),
{
    assert forall|n: AuthorityName| #[trigger] has_name(s.take(i + 1), n) implies (has_name(
        s.take(i),
        n,
    ) || s[i].0 == n) by {
        let k = choose|k: int| #![trigger s.take(i + 1)[k]] 0 <= k < s.take(i + 1).len() && s.take(i + 1)[k].0 == n;
        if k < i {
            assert(s.take(i)[k].0 == n);
        }
    }
    assert forall|n: AuthorityName| (has_name(s.take(i), n) || s[i].0 == n) implies #[trigger]
        has_name(s.take(i + 1), n) by {
        if has_name(s.take(i), n) {
            let k = choose|k: int| #![trigger s.take(i)[k]] 0 <= k < s.take(i).len() && s.take(i)[k].0 == n;
            assert(s.take(i + 1)[k].0 == n);
        } else {
            assert(s.take(i + 1)[i].0 == n);
        }
    }
}

/// The two thresholds together exceed the total stake, and two quorums always
/// overlap in stake: Q + V > S and 2Q > S.
pub proof fn lemma_thresholds(c: Committee)
    requires
        c.well_formed(),
    ensures
        c.quorum_threshold_spec() + c.validity_threshold_spec() > c.total_votes,
        2 * c.quorum_threshold_spec() > c.total_votes,
        c.quorum_threshold_spec() <= c.total_votes + 1,
        c.validity_threshold_spec() <= c.total_votes + 1,
        c.quorum_threshold_spec() >= 1,
        c.validity_threshold_spec() >= 1,
{
    let t = c.total_votes as int;
    assert(t >= 0);
    let a = 2 * t / 3;
    let b = t / 3;
    assert(3 * a <= 2 * t && 2 * t < 3 * a + 3);
    assert(3 * b <= t && t < 3 * b + 3);
}

/// Walks the stake intervals of `rows` and returns the index owning position `r`.
fn pick_index(rows: &Vec<(AuthorityName, StakeUnit)>, r: StakeUnit) -> (idx: usize)
    requires
        r < stakes_sum(rows@),
    ensures
        idx < rows@.len(),
        idx as int == sample_index(rows@, r as int),
{
    proof {
        assert(rows@.skip(0) =~= rows@);
        if rows@.len() == 0 {
            assert(stakes_sum(rows@) == 0);
        }
    }
    let n_rows = rows.len();
    proof {
        assert(n_rows == rows@.len());
    }
    let mut i: usize = 0;
    let mut rem: u64 = r;
    loop
        invariant
            i < rows@.len(),
            rows@.len() <= usize::MAX,
            rem < stakes_sum_suffix(rows@, i as int),
            sample_index(rows@, r as int) == i + sample_index(rows@.skip(i as int), rem as int),
        decreases rows@.len() - i,
    {
        proof {
            assert(rows@.skip(i as int)[0] == rows@[i as int]);
        }
        if rem < rows[i].1 {
            return i;
        }
        proof {
            lemma_stakes_sum_suffix_step(rows@, i as int);
            assert(rows@.skip(i as int).skip(1) =~= rows@.skip(i as int + 1));
            lemma_stakes_sum_suffix_nonneg(rows@, i as int + 1);
            if rows@.len() == i + 1 {
                assert(stakes_sum_suffix(rows@, i as int + 1) == 0);
            }
        }
        rem = rem - rows[i].1;
        i = i + 1;
    }
}

impl Committee {
    /// Deterministic stake-weighted pick: position `r` in the stake intervals,
    /// for callers that inject their own randomness or replay a seed.
    pub fn sample_with(&self, r: StakeUnit) -> (name: AuthorityName)
        requires
            self.well_formed(),
            r < self.total_votes,
        ensures
            name == sample_spec(self.voting_rights@, r as int),
            self.contains_name(name),
    {
        let idx = pick_index(&self.voting_rights, r);
        proof {
            let k = idx as int;
            assert(0 <= k < self.voting_rights@.len() && self.voting_rights@[k].0
                == self.voting_rights@[k].0);
        }
        self.voting_rights[idx].0
    }

    /// Stake-weighted random pick of a validator name.
    pub fn sample(&self) -> (name: AuthorityName)
        requires
            self.well_formed(),
        ensures
            self.contains_name(name),
    {
        proof {
            lemma_stakes_sum_front(self.voting_rights@);
            lemma_stakes_sum_nonneg(self.voting_rights@.skip(1));
        }
        let r = draw_below(self.total_votes);
        self.sample_with(r)
    }
}

/// Membership test in a list of names.
pub fn vec_contains(v: &Vec<AuthorityName>, name: &AuthorityName) -> (r: bool)
    ensures
        r == v@.contains(*name),
{
    let mut i: usize = 0;
    while i < v.len()
        invariant
            i <= v@.len(),
            forall|k: int| 0 <= k < i ==> v@[k] != *name,
        decreases v@.len() - i,
    {
        if v[i] == *name {
            return true;
        }
        i = i + 1;
    }
    false
}

/// Sums the stakes of `rows`, reporting overflow instead of panicking.
fn sum_stakes_checked(rows: &Vec<(AuthorityName, StakeUnit)>) -> (r: Option<StakeUnit>)
    ensures
        r matches Some(t) ==> t == stakes_sum(rows@),
        r is None ==> stakes_sum(rows@) > u64::MAX,
{
    let mut total: u64 = 0;
    let mut i: usize = 0;
    while i < rows.len()
        invariant
            i <= rows@.len(),
            total == stakes_sum(rows@.take(i as int)),
        decreases rows@.len() - i,
    {
        proof {
            lemma_stakes_sum_take_step(rows@, i as int);
        }
        total = match total.checked_add(rows[i].1) {
            Some(t) => t,
            None => {
                proof {
                    lemma_stakes_sum_is_suffix_bounded(rows@, i as int + 1);
                }
                return None;
            },
        };
        i = i + 1;
    }
    proof {
        assert(rows@.take(rows@.len() as int) =~= rows@);
    }
    Some(total)
}

/// The names of `rows`, in their given order.
fn names_of(rows: &Vec<(AuthorityName, StakeUnit)>) -> (out: Vec<AuthorityName>)
    ensures
        out@.len() == rows@.len(),
        forall|k: int| 0 <= k < rows@.len() ==> out@[k] == rows@[k].0,
{
    let mut out: Vec<AuthorityName> = Vec::new();
    let mut i: usize = 0;
    while i < rows.len()
        invariant
            i <= rows@.len(),
            out@.len() == i,
            forall|k: int| 0 <= k < i ==> out@[k] == rows@[k].0,
        decreases rows@.len() - i,
    {
        out.push(rows[i].0);
        i = i + 1;
    }
    out
}

/// Orders the pool by drawing names without replacement, each draw proportional
/// to stake, consuming one entropy word per draw. The result is always a
/// permutation of the pool's names; with no entropy the pool order is kept.
pub fn weighted_order(pool: Vec<(AuthorityName, StakeUnit)>, entropy: &Vec<u64>) -> (out: Vec<
    AuthorityName,
>)
    requires
        names_distinct(pool@),
        forall|i: int| 0 <= i < pool@.len() ==> pool@[i].1 >= 1,
    ensures
        out@.no_duplicates(),
        out@.len() == pool@.len(),
        forall|n: AuthorityName| #[trigger] out@.contains(n) <==> has_name(pool@, n),
{
    let total_opt = sum_stakes_checked(&pool);
    let in_order = entropy.len() == 0 || matches!(total_opt, None);
    if in_order {
        let out = names_of(&pool);
        proof {
            assert forall|n: AuthorityName| #[trigger] out@.contains(n) implies has_name(
                pool@,
                n,
            ) by {
                let k = choose|k: int| 0 <= k < out@.len() && out@[k] == n;
                assert(pool@[k].0 == n);
            }
            assert forall|n: AuthorityName| has_name(pool@, n) implies #[trigger] out@.contains(
                n,
            ) by {
                let k = choose|k: int| #![trigger pool@[k]] 0 <= k < pool@.len() && pool@[k].0 == n;
                assert(out@[k] == n);
            }
            assert forall|i: int, j: int|
                0 <= i < out@.len() && 0 <= j < out@.len() && i != j implies out@[i] != out@[j] by {
                if i < j {
                    assert(pool@[i].0 != pool@[j].0);
                } else {
                    assert(pool@[j].0 != pool@[i].0);
                }
            }
        }
        return out;
    }
    let mut total_rem: u64 = match total_opt {
        Some(t) => t,
        None => 0,
    };
    let mut remaining = pool;
    let n_pool = remaining.len();
    proof {
        assert(n_pool == remaining@.len());
    }
    let ghost pool_view = remaining@;
    let mut out: Vec<AuthorityName> = Vec::new();
    let mut k: usize = 0;
    while remaining.len() > 0
        invariant
            total_rem == stakes_sum(remaining@),
            names_distinct(remaining@),
            forall|t: int| 0 <= t < remaining@.len() ==> remaining@[t].1 >= 1,
            out@.no_duplicates(),
            forall|n: AuthorityName| #[trigger] out@.contains(n) ==> !has_name(remaining@, n),
            forall|n: AuthorityName| #[trigger] out@.contains(n) ==> has_name(pool_view, n),
            forall|n: AuthorityName| #[trigger] has_name(remaining@, n) ==> has_name(pool_view, n),
            forall|n: AuthorityName| #[trigger] has_name(pool_view, n) ==> (out@.contains(n)
                || has_name(remaining@, n)),
            out@.len() + remaining@.len() == pool_view.len(),
            pool_view.len() <= usize::MAX,
            k == out@.len(),
            entropy@.len() > 0,
        decreases remaining@.len(),
    {
        proof {
            lemma_stakes_sum_front(remaining@);
            lemma_stakes_sum_nonneg(remaining@.skip(1));
        }
        let e = entropy[k % entropy.len()];
        let r = e % total_rem;
        let idx = pick_index(&remaining, r);
        let name = remaining[idx].0;
        let stake = remaining[idx].1;
        proof {
            lemma_remove_names(remaining@, idx as int);
            lemma_remove_stake(remaining@, idx as int);
            lemma_stakes_sum_nonneg(remaining@.remove(idx as int));
            assert(has_name(remaining@, name));
            assert(!out@.contains(name));
        }
        let ghost old_out = out@;
        out.push(name);
        proof {
            assert forall|a: int, b: int|
                0 <= a < out@.len() && 0 <= b < out@.len() && a != b implies out@[a] != out@[b] by {
                if a < old_out.len() && b < old_out.len() {
                    assert(old_out[a] == out@[a] && old_out[b] == out@[b]);
                } else if a < old_out.len() {
                    assert(old_out.contains(old_out[a]));
                } else if b < old_out.len() {
                    assert(old_out.contains(old_out[b]));
                }
            }
            assert forall|n: AuthorityName| #[trigger] out@.contains(n) implies (old_out.contains(n)
                || n == name) by {
                let t = choose|t: int| 0 <= t < out@.len() && out@[t] == n;
                if t < old_out.len() {
                    assert(old_out[t] == n);
                }
            }
            assert(out@[old_out.len() as int] == name);
            assert(out@.contains(name));
            assert forall|n: AuthorityName| old_out.contains(n) implies #[trigger] out@.contains(
                n,
            ) by {
                let t = choose|t: int| 0 <= t < old_out.len() && old_out[t] == n;
                assert(out@[t] == n);
            }
        }
        remaining.remove(idx);
        total_rem = total_rem - stake;
        k = k + 1;
    }
    proof {
        assert forall|n: AuthorityName| has_name(pool_view, n) implies #[trigger] out@.contains(
            n,
        ) by {
            assert(!has_name(remaining@, n));
        }
    }
    out
}

/// Whether `n` passes an optional restriction list: everything passes when the
/// list is absent.
pub open spec fn restricted_to(restrict: Option<Seq<AuthorityName>>, n: AuthorityName) -> bool {
    match restrict {
        Some(rs) => rs.contains(n),
        None => true,
    }
}

/// Whether `n` is in an optional preference list: nothing is preferred when the
/// list is absent.
pub open spec fn preferred_in(prefer: Option<Seq<AuthorityName>>, n: AuthorityName) -> bool {
    match prefer {
        Some(ps) => ps.contains(n),
        None => false,
    }
}

/// View of an optional borrowed name list.
pub open spec fn opt_names_view(o: Option<&Vec<AuthorityName>>) -> Option<Seq<AuthorityName>> {
    match o {
        Some(v) => Some(v@),
        None => None,
    }
}

impl Committee {
    /// Stake-weighted shuffle with injected entropy: an ordering of the
    /// committee names (restricted to `restrict` when given) in which each
    /// position is drawn without replacement proportional to stake, and
    /// preferred names all come before the others. No name appears twice.
    pub fn shuffle_by_stake_with(
        &self,
        prefer: Option<&Vec<AuthorityName>>,
        restrict: Option<&Vec<AuthorityName>>,
        entropy: &Vec<u64>,
    ) -> (out: Vec<AuthorityName>)
        requires
            self.well_formed(),
        ensures
            out@.no_duplicates(),
            forall|n: AuthorityName| #[trigger] out@.contains(n) <==> (self.contains_name(n)
                && restricted_to(opt_names_view(restrict), n)),
            forall|i: int, j: int|
                #![trigger out@[i], out@[j]]
                0 <= i < j < out@.len() && preferred_in(opt_names_view(prefer), out@[j])
                    ==> preferred_in(opt_names_view(prefer), out@[i]),
    {
        let rows = &self.voting_rights;
        let mut group_a: Vec<(AuthorityName, StakeUnit)> = Vec::new();
        let mut group_b: Vec<(AuthorityName, StakeUnit)> = Vec::new();
        let mut i: usize = 0;
        while i < rows.len()
            invariant
                i <= rows@.len(),
                forall|k: int, l: int| 0 <= k < l < rows@.len() ==> rows@[k].0 < rows@[l].0,
                forall|k: int| 0 <= k < rows@.len() ==> rows@[k].1 >= 1,
                names_distinct(group_a@),
                names_distinct(group_b@),
                forall|t: int| 0 <= t < group_a@.len() ==> group_a@[t].1 >= 1,
                forall|t: int| 0 <= t < group_b@.len() ==> group_b@[t].1 >= 1,
                forall|n: AuthorityName| #[trigger] has_name(group_a@, n) <==> (has_name(
                    rows@.take(i as int),
                    n,
                ) && restricted_to(opt_names_view(restrict), n) && preferred_in(
                    opt_names_view(prefer),
                    n,
                )),
                forall|n: AuthorityName| #[trigger] has_name(group_b@, n) <==> (has_name(
                    rows@.take(i as int),
                    n,
                ) && restricted_to(opt_names_view(restrict), n) && !preferred_in(
                    opt_names_view(prefer),
                    n,
                )),
            decreases rows@.len() - i,
        {
            let (name, stake) = rows[i];
            let allowed = match restrict {
                Some(rs) => vec_contains(rs, &name),
                None => true,
            };
            let is_pref = match prefer {
                Some(ps) => vec_contains(ps, &name),
                None => false,
            };
            proof {
                lemma_has_name_take_step(rows@, i as int);
                if has_name(rows@.take(i as int), name) {
                    let kk = choose|kk: int|
                        #![trigger rows@.take(i as int)[kk]]
                        0 <= kk < rows@.take(i as int).len() && rows@.take(i as int)[kk].0 == name;
                    assert(rows@[kk].0 == name && kk < i);
                    assert(rows@[kk].0 < rows@[i as int].0);
                }
            }
            if allowed {
                let ghost old_a = group_a@;
                let ghost old_b = group_b@;
                if is_pref {
                    group_a.push((name, stake));
                    proof {
                        assert forall|n: AuthorityName| #[trigger] has_name(group_a@, n) implies (
                        has_name(old_a, n) || n == name) by {
                            let t = choose|t: int| #![trigger group_a@[t]] 0 <= t < group_a@.len() && group_a@[t].0 == n;
                            if t < old_a.len() {
                                assert(old_a[t].0 == n);
                            }
                        }
                        assert forall|n: AuthorityName| has_name(old_a, n) implies #[trigger]
                            has_name(group_a@, n) by {
                            let t = choose|t: int| #![trigger old_a[t]] 0 <= t < old_a.len() && old_a[t].0 == n;
                            assert(group_a@[t].0 == n);
                        }
                        assert(group_a@[old_a.len() as int].0 == name);
                        assert(has_name(group_a@, name));
                        assert(!has_name(old_a, name));
                        assert forall|a: int, b: int|
                            0 <= a < b < group_a@.len() implies group_a@[a].0 != group_a@[b].0 by {
                            if b < old_a.len() {
                                assert(old_a[a].0 != old_a[b].0);
                            } else {
                                assert(old_a[a].0 == group_a@[a].0);
                                assert(has_name(old_a, old_a[a].0));
                            }
                        }
                    }
                } else {
                    group_b.push((name, stake));
                    proof {
                        assert forall|n: AuthorityName| #[trigger] has_name(group_b@, n) implies (
                        has_name(old_b, n) || n == name) by {
                            let t = choose|t: int| #![trigger group_b@[t]] 0 <= t < group_b@.len() && group_b@[t].0 == n;
                            if t < old_b.len() {
                                assert(old_b[t].0 == n);
                            }
                        }
                        assert forall|n: AuthorityName| has_name(old_b, n) implies #[trigger]
                            has_name(group_b@, n) by {
                            let t = choose|t: int| #![trigger old_b[t]] 0 <= t < old_b.len() && old_b[t].0 == n;
                            assert(group_b@[t].0 == n);
                        }
                        assert(group_b@[old_b.len() as int].0 == name);
                        assert(has_name(group_b@, name));
                        assert(!has_name(old_b, name));
                        assert forall|a: int, b: int|
                            0 <= a < b < group_b@.len() implies group_b@[a].0 != group_b@[b].0 by {
                            if b < old_b.len() {
                                assert(old_b[a].0 != old_b[b].0);
                            } else {
                                assert(old_b[a].0 == group_b@[a].0);
                                assert(has_name(old_b, old_b[a].0));
                            }
                        }
                    }
                }
            }
            i = i + 1;
        }
        proof {
            assert(rows@.take(rows@.len() as int) =~= rows@);
        }
        let ordered_a = weighted_order(group_a, entropy);
        let ordered_b = weighted_order(group_b, entropy);
        let ghost a_view = ordered_a@;
        let ghost b_view = ordered_b@;
        let mut out = ordered_a;
        let mut j: usize = 0;
        while j < ordered_b.len()
            invariant
                j <= b_view.len(),
                ordered_b@ == b_view,
                out@ == a_view + b_view.take(j as int),
            decreases b_view.len() - j,
        {
            out.push(ordered_b[j]);
            proof {
                assert(a_view + b_view.take(j as int + 1) =~= (a_view + b_view.take(
                    j as int,
                )).push(b_view[j as int]));
            }
            j = j + 1;
        }
        proof {
            assert(out@ =~= a_view + b_view);
            assert forall|n: AuthorityName| #[trigger] out@.contains(n) implies (a_view.contains(n)
                || b_view.contains(n)) by {
                let t = choose|t: int| 0 <= t < out@.len() && out@[t] == n;
                if t < a_view.len() {
                    assert(a_view[t] == n);
                } else {
                    assert(b_view[t - a_view.len()] == n);
                }
            }
            assert forall|n: AuthorityName| a_view.contains(n) || b_view.contains(n) implies
                #[trigger] out@.contains(n) by {
                if a_view.contains(n) {
                    let t = choose|t: int| 0 <= t < a_view.len() && a_view[t] == n;
                    assert(out@[t] == n);
                } else {
                    let t = choose|t: int| 0 <= t < b_view.len() && b_view[t] == n;
                    assert(out@[a_view.len() + t] == n);
                }
            }
            assert forall|a: int, b: int|
                0 <= a < out@.len() && 0 <= b < out@.len() && a != b implies out@[a] != out@[b] by {
                if a < a_view.len() && b < a_view.len() {
                } else if a >= a_view.len() && b >= a_view.len() {
                } else {
                    let ai = if a < a_view.len() { a } else { b };
                    let bi = if a < a_view.len() { b } else { a };
                    assert(a_view.contains(out@[ai]));
                    assert(b_view.contains(out@[bi]));
                    assert(has_name(group_a@, out@[ai]));
                    assert(has_name(group_b@, out@[bi]));
                }
            }
            assert forall|i0: int, j0: int|
                #![trigger out@[i0], out@[j0]]
                0 <= i0 < j0 < out@.len() && preferred_in(opt_names_view(prefer), out@[j0]) implies
                preferred_in(opt_names_view(prefer), out@[i0]) by {
                if j0 >= a_view.len() {
                    assert(b_view.contains(out@[j0]));
                    assert(has_name(group_b@, out@[j0]));
                    assert(false);
                } else {
                    assert(a_view.contains(out@[i0]));
                    assert(has_name(group_a@, out@[i0]));
                }
            }
            assert forall|n: AuthorityName| #[trigger] out@.contains(n) implies (
            self.contains_name(n) && restricted_to(opt_names_view(restrict), n)) by {
                if a_view.contains(n) {
                    assert(has_name(group_a@, n));
                } else {
                    assert(b_view.contains(n));
                    assert(has_name(group_b@, n));
                }
            }
            assert forall|n: AuthorityName| self.contains_name(n) && restricted_to(
                opt_names_view(restrict),
                n,
            ) implies #[trigger] out@.contains(n) by {
                assert(has_name(rows@, n));
                if preferred_in(opt_names_view(prefer), n) {
                    assert(has_name(group_a@, n));
                } else {
                    assert(has_name(group_b@, n));
                }
            }
        }
        out
    }

    /// Stake-weighted shuffle with fresh randomness: one entropy word is drawn
    /// per committee member.
    pub fn shuffle_by_stake(
        &self,
        prefer: Option<&Vec<AuthorityName>>,
        restrict: Option<&Vec<AuthorityName>>,
    ) -> (out: Vec<AuthorityName>)
        requires
            self.well_formed(),
        ensures
            out@.no_duplicates(),
            forall|n: AuthorityName| #[trigger] out@.contains(n) <==> (self.contains_name(n)
                && restricted_to(opt_names_view(restrict), n)),
            forall|i: int, j: int|
                #![trigger out@[i], out@[j]]
                0 <= i < j < out@.len() && preferred_in(opt_names_view(prefer), out@[j])
                    ==> preferred_in(opt_names_view(prefer), out@[i]),
    {
        let mut entropy: Vec<u64> = Vec::new();
        let mut i: usize = 0;
        let n = self.voting_rights.len();
        while i < n
            invariant
                i <= n,
                entropy@.len() == i,
            decreases n - i,
        {
            entropy.push(draw_below(u64::MAX));
            i = i + 1;
        }
        self.shuffle_by_stake_with(prefer, restrict, &entropy)
    }
}

} // verus!
