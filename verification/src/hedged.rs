//! The hedged serial driver behind `quorum_once_with_timeout`: requests that
//! need exactly one successful, self-authenticating answer are issued one
//! validator at a time, but a hedge timer starts the next request early so a
//! slow peer cannot block progress. When a whole round fails, the driver backs
//! off exponentially and starts over with a fresh shuffle.
//!
//! The runtime owns the clocks and the in-flight calls; the decisions — whom
//! to dispatch next, when a round is over, what to report on a total timeout —
//! are taken here, one event at a time.

use vstd::prelude::*;

use crate::base_types::AuthorityName;
use crate::error::{AggregateError, ValidatorError};

verus! {

/// The backoff delay starts at one second and doubles up to five minutes.
pub const INITIAL_DELAY_MS: u64 = 1000;

/// Cap of the backoff delay.
pub const MAX_DELAY_MS: u64 = 300000;

/// Events the runtime feeds the driver: the hedge timer fired, or an
/// outstanding request failed (a per-call timeout is a failure with
/// `TimeoutError`). A successful request ends the whole operation instead.
pub enum HedgedEvent {
    TimerFired,
    RequestFailed(AuthorityName, ValidatorError),
}

/// What the runtime must do next: start a request to a validator (and re-arm
/// the hedge timer after a `TimerFired`), or sleep for the given backoff and
/// begin a new round with a fresh shuffle, abandoning outstanding requests.
pub enum HedgedAction {
    Dispatch(AuthorityName),
    RestartRound(u64),
}

/// Driver state for one hedged operation.
pub struct HedgedState {
    /// The validators of the current round, in stake-shuffled order.
    pub order: Vec<AuthorityName>,
    /// Position of the next validator to dispatch.
    pub next_index: usize,
    /// Requests dispatched in this round.
    pub started: u64,
    /// Latest error seen per validator, newest observation winning.
    pub errors: Vec<(AuthorityName, ValidatorError)>,
    /// Current backoff delay in milliseconds.
    pub delay_ms: u64,
}

/// The error list with the entry for `name` replaced or appended.
pub open spec fn errors_upsert(
    errors: Seq<(AuthorityName, ValidatorError)>,
    name: AuthorityName,
    e: ValidatorError,
) -> Seq<(AuthorityName, ValidatorError)>
    decreases errors.len(),
{
    if errors.len() == 0 {
        seq![(name, e)]
    } else if errors[0].0 == name {
        seq![(name, e)] + errors.skip(1)
    } else {
        seq![errors[0]] + errors_upsert(errors.skip(1), name, e)
    }
}

/// The doubled, capped backoff delay.
pub open spec fn next_delay_spec(d: u64) -> int {
    if 2 * d < MAX_DELAY_MS {
        2 * (d as int)
    } else {
        MAX_DELAY_MS as int
    }
}

/// Doubles the backoff delay, capped at five minutes.
pub fn next_delay(d: u64) -> (r: u64)
    ensures
        r == next_delay_spec(d),
{
    if d < MAX_DELAY_MS / 2 {
        2 * d
    } else {
        MAX_DELAY_MS
    }
}

impl HedgedState {
    /// Starts a round over a fresh stake-shuffled order, keeping the errors
    /// and the backoff delay.
    pub fn begin_round(&mut self, order: Vec<AuthorityName>)
        ensures
            final(self).order == order,
            final(self).next_index == 0,
            final(self).started == 0,
            final(self).errors == old(self).errors,
            final(self).delay_ms == old(self).delay_ms,
    {
        self.order = order;
        self.next_index = 0;
        self.started = 0;
    }

    /// A fresh driver for one operation.
    pub fn new(order: Vec<AuthorityName>) -> (s: HedgedState)
        ensures
            s.order == order,
            s.next_index == 0,
            s.started == 0,
            s.errors@ == Seq::<(AuthorityName, ValidatorError)>::empty(),
            s.delay_ms == INITIAL_DELAY_MS,
    {
        HedgedState {
            order,
            next_index: 0,
            started: 0,
            errors: Vec::new(),
            delay_ms: INITIAL_DELAY_MS,
        }
    }

    /// Records the latest error observed for `name`.
    fn record_error(&mut self, name: AuthorityName, e: ValidatorError)
        ensures
            final(self).errors@ == errors_upsert(old(self).errors@, name, e),
            final(self).order == old(self).order,
            final(self).next_index == old(self).next_index,
            final(self).started == old(self).started,
            final(self).delay_ms == old(self).delay_ms,
    {
        proof {
            assert(self.errors@.skip(0) =~= self.errors@);
        }
        let ghost orig = self.errors@;
        let mut i: usize = 0;
        while i < self.errors.len()
            invariant
                i <= self.errors@.len(),
                self.errors@ == orig,
                orig == old(self).errors@,
                self.order == old(self).order,
                self.next_index == old(self).next_index,
                self.started == old(self).started,
                self.delay_ms == old(self).delay_ms,
                errors_upsert(orig, name, e) == orig.take(i as int) + errors_upsert(
                    orig.skip(i as int),
                    name,
                    e,
                ),
                forall|k: int| 0 <= k < i ==> orig[k].0 != name,
            decreases self.errors@.len() - i,
        {
            proof {
                assert(orig.skip(i as int)[0] == orig[i as int]);
                assert(orig.skip(i as int).skip(1) =~= orig.skip(i as int + 1));
            }
            if self.errors[i].0 == name {
                proof {
                    assert(errors_upsert(orig, name, e) =~= orig.take(i as int) + (seq![
                        (name, e),
                    ] + orig.skip(i as int + 1)));
                    assert(orig.update(i as int, (name, e)) =~= orig.take(i as int) + (seq![
                        (name, e),
                    ] + orig.skip(i as int + 1)));
                }
                self.errors.set(i, (name, e));
                return;
            }
            proof {
                assert(orig.take(i as int + 1) =~= orig.take(i as int) + seq![orig[i as int]]);
                assert(orig.take(i as int) + (seq![orig[i as int]] + errors_upsert(
                    orig.skip(i as int + 1),
                    name,
                    e,
                )) =~= orig.take(i as int + 1) + errors_upsert(orig.skip(i as int + 1), name, e));
            }
            i = i + 1;
        }
        proof {
            assert(orig.skip(orig.len() as int) =~= Seq::<(AuthorityName, ValidatorError)>::empty());
            assert(errors_upsert(orig, name, e) =~= orig.take(orig.len() as int) + seq![
                (name, e),
            ]);
            assert(orig.take(orig.len() as int) =~= orig);
            assert(orig.push((name, e)) =~= orig + seq![(name, e)]);
        }
        self.errors.push((name, e));
    }

    /// One decision step. Every event — a hedge timer or a failed request —
    /// dispatches the next validator while one remains, so after j timer fires
    /// and f failures at least min(1 + j + f, n) of the n validators in
    /// shuffle order have been asked; when the round is exhausted, the driver
    /// backs off by the current delay, doubling it up to the cap.
    pub fn step(&mut self, event: HedgedEvent) -> (a: HedgedAction)
        requires
            old(self).started <= old(self).order@.len(),
            old(self).next_index <= old(self).order@.len(),
            old(self).started == old(self).next_index,
        ensures
            final(self).order == old(self).order,
            final(self).errors@ == (match event {
                HedgedEvent::TimerFired => old(self).errors@,
                HedgedEvent::RequestFailed(name, e) => errors_upsert(old(self).errors@, name, e),
            }),
            old(self).next_index < old(self).order@.len() ==> {
                &&& a == HedgedAction::Dispatch(old(self).order@[old(self).next_index as int])
                &&& final(self).next_index == old(self).next_index + 1
                &&& final(self).started == old(self).started + 1
                &&& final(self).delay_ms == old(self).delay_ms
            },
            old(self).next_index == old(self).order@.len() ==> {
                &&& a == HedgedAction::RestartRound(old(self).delay_ms)
                &&& final(self).delay_ms == next_delay_spec(old(self).delay_ms)
                &&& final(self).next_index == old(self).next_index
                &&& final(self).started == old(self).started
            },
            final(self).started == final(self).next_index,
            final(self).started <= final(self).order@.len(),
    {
        match event {
            HedgedEvent::TimerFired => {},
            HedgedEvent::RequestFailed(name, e) => {
                self.record_error(name, e);
            },
        }
        if self.next_index < self.order.len() {
            let name = self.order[self.next_index];
            self.next_index = self.next_index + 1;
            self.started = self.started + 1;
            HedgedAction::Dispatch(name)
        } else {
            let d = self.delay_ms;
            self.delay_ms = next_delay(d);
            HedgedAction::RestartRound(d)
        }
    }
}

/// What a total timeout of the hedged path surfaces: a bare timeout when no
/// validator-level error was seen, otherwise the collected errors.
pub fn hedged_timeout_error(errors: Vec<(AuthorityName, ValidatorError)>) -> (r: AggregateError)
    ensures
        errors@.len() == 0 ==> r == AggregateError::TimeoutError,
        errors@.len() > 0 ==> (r matches AggregateError::TooManyIncorrectAuthorities {
            errors: es,
        } && es@ == errors@),
{
    if errors.len() == 0 {
        AggregateError::TimeoutError
    } else {
        AggregateError::TooManyIncorrectAuthorities { errors }
    }
}

/// The dispatch counters after a sequence of events within one round; error
/// bookkeeping is kept aside, as it does not affect who is dispatched.
pub open spec fn hedged_round(st: HedgedState, events: Seq<HedgedEvent>) -> HedgedState
    decreases events.len(),
{
    if events.len() == 0 {
        st
    } else {
        let st1 = match events[0] {
            HedgedEvent::TimerFired => HedgedState {
                order: st.order,
                next_index: if st.next_index < st.order@.len() {
                    (st.next_index + 1) as usize
                } else {
                    st.next_index
                },
                started: if st.next_index < st.order@.len() {
                    (st.started + 1) as u64
                } else {
                    st.started
                },
                errors: st.errors,
                delay_ms: st.delay_ms,
            },
            HedgedEvent::RequestFailed(_, _) => HedgedState {
                order: st.order,
                next_index: if st.next_index < st.order@.len() {
                    (st.next_index + 1) as usize
                } else {
                    st.next_index
                },
                started: if st.next_index < st.order@.len() {
                    (st.started + 1) as u64
                } else {
                    st.started
                },
                errors: st.errors,
                delay_ms: st.delay_ms,
            },
        };
        hedged_round(st1, events.skip(1))
    }
}

/// The hedge bound, timing aside: within one round, every event dispatches the
/// next validator while one remains, so after any j events the driver has
/// started at least min(initial + j, n) requests. With a hedge interval of I,
/// the j-th timer fires by time j×I, so the first healthy validator in
/// shuffle order is reached after at most its position times I.
pub proof fn lemma_hedge_dispatch_bound(st: HedgedState, events: Seq<HedgedEvent>)
    requires
        st.started == st.next_index,
        st.started <= st.order@.len(),
        st.order@.len() <= usize::MAX,
    ensures
        ({
            let end = hedged_round(st, events);
            &&& end.started == end.next_index
            &&& end.started <= st.order@.len()
            &&& end.started >= if st.started + events.len() <= st.order@.len() {
                st.started + events.len()
            } else {
                st.order@.len() as int
            }
        }),
    decreases events.len(),
{
    if events.len() > 0 {
        match events[0] {
            HedgedEvent::TimerFired => {
                if st.next_index < st.order@.len() {
                    lemma_hedge_dispatch_bound(
                        HedgedState {
                            order: st.order,
                            next_index: (st.next_index + 1) as usize,
                            started: (st.started + 1) as u64,
                            errors: st.errors,
                            delay_ms: st.delay_ms,
                        },
                        events.skip(1),
                    );
                } else {
                    lemma_hedge_dispatch_bound(st, events.skip(1));
                    assert(hedged_round(st, events) == hedged_round(st, events.skip(1)));
                }
            },
            HedgedEvent::RequestFailed(_, _) => {
                if st.next_index < st.order@.len() {
                    lemma_hedge_dispatch_bound(
                        HedgedState {
                            order: st.order,
                            next_index: (st.next_index + 1) as usize,
                            started: (st.started + 1) as u64,
                            errors: st.errors,
                            delay_ms: st.delay_ms,
                        },
                        events.skip(1),
                    );
                } else {
                    lemma_hedge_dispatch_bound(st, events.skip(1));
                    assert(hedged_round(st, events) == hedged_round(st, events.skip(1)));
                }
            },
        }
    }
}

} // verus!
