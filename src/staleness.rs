//! The staleness gate: a time-to-live check with single-flight admission, so
//! that at most one refresh cycle starts per window.

use vstd::prelude::*;

verus! {

/// How long mirrored data stays fresh: one hour, in microseconds.
pub const REFRESH_TTL: i64 = 3_600_000_000;

/// Whether data refreshed at `last` is stale at `now` for a time-to-live `ttl`.
pub open spec fn is_stale(last: int, now: int, ttl: int) -> bool {
    now - last >= ttl
}

/// Whether data refreshed at `last_refreshed` is stale at `now`.
pub fn should_refresh(last_refreshed: i64, now: i64, ttl: i64) -> (r: bool)
    ensures
        r == is_stale(last_refreshed as int, now as int, ttl as int),
{
    (now as i128) - (last_refreshed as i128) >= ttl as i128
}

/// The stored record of the last refresh.
#[derive(Clone, Copy, Debug, PartialEq, Eq, Structural)]
pub struct GitHubQueryState {
    pub id: i32,
    /// Time of the last refresh, in microseconds since the Unix epoch.
    pub last_queried: i64,
}

/// The decision on the stored refresh record: stale only when it could be read
/// and is at least one time-to-live old. An unreadable store counts as fresh.
pub fn db_data_is_stale(stored: Option<GitHubQueryState>, now: i64) -> (r: bool)
    ensures
        r == match stored {
            Some(s) => is_stale(s.last_queried as int, now as int, REFRESH_TTL as int),
            None => false,
        },
{
    match stored {
        Some(s) => should_refresh(s.last_queried, now, REFRESH_TTL),
        None => false,
    }
}

/// The time of the last admitted refresh and whether one is running.
#[derive(Clone, Copy, Debug, PartialEq, Eq, Structural)]
pub struct StalenessState {
    /// Time of the last admitted refresh, in microseconds since the epoch.
    pub last_refreshed: i64,
    /// Whether an admitted refresh is still running.
    pub in_flight: bool,
}

/// The outcome of a staleness check on `s` at `now`: whether a refresh may
/// start, and the state after the check.
pub open spec fn check_outcome(s: StalenessState, now: i64) -> (bool, StalenessState) {
    if !s.in_flight && is_stale(s.last_refreshed as int, now as int, REFRESH_TTL as int) {
        (true, StalenessState { last_refreshed: now, in_flight: true })
    } else {
        (false, s)
    }
}

/// The state once the running refresh has ended, however it ended.
pub open spec fn finish_outcome(s: StalenessState) -> StalenessState {
    StalenessState { last_refreshed: s.last_refreshed, in_flight: false }
}

impl StalenessState {
    /// A state that was never refreshed: its time is the epoch, so the first
    /// check finds the data stale.
    pub fn new() -> (r: Self)
        ensures
            r.last_refreshed == 0,
            !r.in_flight,
    {
        StalenessState { last_refreshed: 0, in_flight: false }
    }

    /// A state last refreshed at `t`, with no refresh running.
    pub fn refreshed_at(t: i64) -> (r: Self)
        ensures
            r.last_refreshed == t,
            !r.in_flight,
    {
        StalenessState { last_refreshed: t, in_flight: false }
    }

    /// Checks staleness at `now`. When the data is stale and no refresh is
    /// running, the stored time moves to `now` at once, before the refresh
    /// runs, the state records a running refresh and `true` is returned.
    /// Otherwise nothing changes and `false` is returned.
    pub fn try_begin(&mut self, now: i64) -> (r: bool)
        ensures
            (r, *final(self)) == check_outcome(*old(self), now),
    {
        if !self.in_flight && should_refresh(self.last_refreshed, now, REFRESH_TTL) {
            self.last_refreshed = now;
            self.in_flight = true;
            true
        } else {
            false
        }
    }

    /// Records that the running refresh has ended; the stored time stays.
    pub fn finish(&mut self)
        ensures
            *final(self) == finish_outcome(*old(self)),
    {
        self.in_flight = false;
    }

    /// `try_begin` at the current time of the system clock.
    pub fn try_begin_now(&mut self) -> (r: bool)
        ensures
            exists|now: i64| (r, *final(self)) == check_outcome(*old(self), now),
    {
        let now = current_time_micros();
        self.try_begin(now)
    }
}

/// Relies on `chrono::Utc::now` and `DateTime::timestamp_micros`: the current
/// time, in microseconds since the Unix epoch. Nothing is known of its value.
#[verifier::external_body]
fn current_time_micros() -> (r: i64) {
    chrono::Utc::now().timestamp_micros()
}

/// A run of gate events from `s`: `Some(t)` is a staleness check at time `t`,
/// `None` is the running refresh ending. The result counts the checks that
/// started a refresh and gives the final state.
pub open spec fn run_gate(s: StalenessState, events: Seq<Option<i64>>) -> (nat, StalenessState)
    decreases events.len(),
{
    if events.len() == 0 {
        (0, s)
    } else {
        let (n, mid) = run_gate(s, events.drop_last());
        match events.last() {
            Some(t) => {
                let (started, next) = check_outcome(mid, t);
                (if started { n + 1 } else { n }, next)
            },
            None => (n, finish_outcome(mid)),
        }
    }
}

/// Single flight: when every check of a run falls inside one time-to-live
/// window that starts with its first check, and the data is stale for all of
/// them, exactly one check starts a refresh, the first, and the stored time is
/// that check's time, set when the check admitted it.
pub proof fn lemma_single_flight(s: StalenessState, events: Seq<Option<i64>>)
    requires
        !s.in_flight,
        events.len() > 0,
        events[0] is Some,
        forall|i: int| 0 <= i < events.len() && (#[trigger] events[i]) is Some ==> {
            &&& is_stale(s.last_refreshed as int, events[i]->0 as int, REFRESH_TTL as int)
            &&& events[i]->0 - events[0]->0 < REFRESH_TTL
        },
    ensures
        run_gate(s, events).0 == 1,
        run_gate(s, events).1.last_refreshed == events[0]->0,
        run_gate(s, events.take(1)) == (1nat, StalenessState { last_refreshed: events[0]->0, in_flight: true }),
    decreases events.len(),
{
    let first = events.take(1);
    assert(first.drop_last() == Seq::<Option<i64>>::empty());
    assert(run_gate(s, first.drop_last()) == (0nat, s));
    assert(first.last() == events[0]);
    assert(is_stale(s.last_refreshed as int, events[0]->0 as int, REFRESH_TTL as int));
    if events.len() > 1 {
        let init = events.drop_last();
        assert forall|i: int| 0 <= i < init.len() && (#[trigger] init[i]) is Some implies {
            &&& is_stale(s.last_refreshed as int, init[i]->0 as int, REFRESH_TTL as int)
            &&& init[i]->0 - init[0]->0 < REFRESH_TTL
        } by {
            assert(init[i] == events[i]);
        }
        lemma_single_flight(s, init);
        assert(init.take(1) == events.take(1));
        assert(events[events.len() - 1] == events.last());
        let (n, mid) = run_gate(s, init);
        assert(mid.last_refreshed == events[0]->0);
        match events.last() {
            Some(t) => {
                assert(!is_stale(mid.last_refreshed as int, t as int, REFRESH_TTL as int));
            },
            None => {},
        }
    } else {
        assert(events.take(1) == events);
    }
}

} // verus!
