//! Poll ticks: turning probe outcomes into history, and the decisions of the
//! polling loop.
use vstd::prelude::*;
use crate::config::PollInterval;
use crate::store::{Observation, Store, StoreError, StoreView, stamp_allowed, stamped, table_has_id};

verus! {

/// Reserved status code: the probe failed before any response came.
pub const PROBE_FAILED: i64 = -1;

/// How a probe ended: with an HTTP response, whatever its status, or with a
/// transport failure (DNS, refused connection, timeout, TLS).
#[derive(Clone, Copy, Debug, PartialEq, Eq, Structural)]
pub enum ProbeOutcome {
    Response(u16),
    Failed,
}

/// The outcome of probing one entry.
#[derive(Clone, Copy, Debug, PartialEq, Eq, Structural)]
pub struct ProbeResult {
    pub entry_id: i64,
    pub outcome: ProbeOutcome,
}

/// The status code recorded for an outcome.
pub open spec fn status_of(o: ProbeOutcome) -> i64 {
    match o {
        ProbeOutcome::Response(c) => c as i64,
        ProbeOutcome::Failed => PROBE_FAILED,
    }
}

/// How a recorded status code reads: success, redirect, or failure. The
/// reserved failure code is a failure.
#[derive(Clone, Copy, Debug, PartialEq, Eq, Structural)]
pub enum StatusClass {
    Success,
    Redirect,
    Failure,
}

/// The class of a recorded status code: 2xx is a success, 3xx a redirect,
/// anything else (the reserved failure code included) a failure.
pub fn classify_status(code: i64) -> (r: StatusClass)
    ensures
        200 <= code <= 299 <==> r == StatusClass::Success,
        300 <= code <= 399 <==> r == StatusClass::Redirect,
        !(200 <= code <= 399) <==> r == StatusClass::Failure,
{
    if 200 <= code && code <= 299 {
        StatusClass::Success
    } else if 300 <= code && code <= 399 {
        StatusClass::Redirect
    } else {
        StatusClass::Failure
    }
}

/// The observation recorded for a probe result.
pub open spec fn observation_of(p: ProbeResult) -> Observation {
    Observation { entry_id: p.entry_id, status_code: status_of(p.outcome) }
}

/// The status code recorded for an outcome: the response status, or the
/// reserved failure code.
pub fn status_code_of(o: ProbeOutcome) -> (r: i64)
    ensures
        r == status_of(o),
        o is Failed <==> r == PROBE_FAILED,
{
    match o {
        ProbeOutcome::Response(c) => c as i64,
        ProbeOutcome::Failed => PROBE_FAILED,
    }
}

/// One observation per probe result, in order.
pub fn tick_observations(results: &Vec<ProbeResult>) -> (r: Vec<Observation>)
    ensures
        r@ == results@.map_values(|p: ProbeResult| observation_of(p)),
{
    let mut r: Vec<Observation> = Vec::new();
    let mut i: usize = 0;
    while i < results.len()
        invariant
            i <= results.len(),
            r@ == results@.take(i as int).map_values(|p: ProbeResult| observation_of(p)),
        decreases results.len() - i,
    {
        let p = results[i];
        r.push(Observation { entry_id: p.entry_id, status_code: status_code_of(p.outcome) });
        assert(results@.take(i + 1).map_values(|p: ProbeResult| observation_of(p)) =~= results@.take(
            i as int,
        ).map_values(|p: ProbeResult| observation_of(p)).push(observation_of(p)));
        i = i + 1;
    }
    assert(results@.take(results.len() as int) =~= results@);
    r
}

/// Records one tick: one history record per probe result, stamped with
/// `observed_at`, committed together. A failed probe is recorded with the
/// reserved code; a result for an entry that no longer exists makes the
/// whole tick fail and leaves the store as it was. The stamp is no earlier
/// than the last one, so the history stays in time order.
pub fn poll_statuses_once(store: &mut Store, results: &Vec<ProbeResult>, observed_at: i64) -> (r: Result<(), StoreError>)
    requires
        old(store).inv(),
        stamp_allowed(old(store)@.history, observed_at),
    ensures
        final(store).inv(),
        r is Ok <==> forall|i: int| 0 <= i < results@.len()
            ==> table_has_id(old(store)@.table, (#[trigger] results@[i]).entry_id as int),
        r is Ok ==> final(store)@ == (StoreView {
            history: old(store)@.history + stamped(results@.map_values(|p: ProbeResult| observation_of(p)), observed_at),
            ..old(store)@
        }),
        r is Ok ==> final(store)@.history.len() == old(store)@.history.len() + results@.len(),
        r is Ok ==> forall|i: int| 0 <= i < results@.len() ==> {
            let h = #[trigger] final(store)@.history[old(store)@.history.len() + i];
            &&& h.entry_id == results@[i].entry_id
            &&& h.observed_at == observed_at
            &&& (h.status_code == PROBE_FAILED <==> results@[i].outcome is Failed)
        },
        r is Err ==> *final(store) == *old(store) && r->Err_0 is MissingEntry,
{
    let obs = tick_observations(results);
    proof {
        assert forall|i: int| 0 <= i < obs@.len() implies (#[trigger] obs@[i]).entry_id == results@[i].entry_id by {}
    }
    let r = store.commit_tick(&obs, observed_at);
    proof {
        if r is Ok {
            assert forall|i: int| 0 <= i < results@.len()
            implies table_has_id(old(store)@.table, (#[trigger] results@[i]).entry_id as int) by {
                assert(obs@[i].entry_id == results@[i].entry_id);
            }
            let n0 = old(store)@.history.len();
            assert forall|i: int| 0 <= i < results@.len() implies {
                let h = #[trigger] store@.history[n0 + i];
                &&& h.entry_id == results@[i].entry_id
                &&& h.observed_at == observed_at
                &&& (h.status_code == PROBE_FAILED <==> results@[i].outcome is Failed)
            } by {
                assert(store@.history[n0 + i] == stamped(obs@, observed_at)[i]);
            }
        } else {
            let k = choose|i: int| 0 <= i < obs@.len() && !table_has_id(old(store)@.table, (#[trigger] obs@[i]).entry_id as int);
            assert(!table_has_id(old(store)@.table, results@[k].entry_id as int));
        }
    }
    r
}

/// Where the polling loop stands.
#[derive(Clone, Copy, Debug, PartialEq, Eq, Structural)]
pub enum PollerPhase {
    /// Not started yet.
    Idle,
    /// A tick is running.
    Polling,
    /// Waiting out the interval before the next tick.
    Sleeping,
    /// Cancelled; no further tick runs.
    Stopped,
}

/// What happened to the polling loop.
#[derive(Clone, Copy, Debug, PartialEq, Eq, Structural)]
pub enum PollerEvent {
    /// The loop is started.
    Start,
    /// The running tick ended; `true` where its commit succeeded.
    TickDone(bool),
    /// The interval has passed.
    Woke,
    /// Shutdown was requested.
    Cancel,
}

/// What the loop must do next.
#[derive(Clone, Copy, Debug, PartialEq, Eq, Structural)]
pub enum PollerAction {
    /// Run one tick.
    Poll,
    /// Sleep for the interval, interruptibly.
    Sleep(PollInterval),
    /// Report the failed tick, then sleep for the interval.
    ReportAndSleep(PollInterval),
    /// Nothing: the event does not apply in this phase.
    Ignore,
    /// Leave the loop.
    Stop,
}

/// The decisions of the polling loop: a tick, then the interval, forever,
/// until cancelled. A failed tick neither ends the loop nor changes the
/// interval.
pub struct Poller {
    pub interval: PollInterval,
    pub phase: PollerPhase,
}

impl Poller {
    /// A loop that has not started, with the given interval.
    pub fn new(interval: PollInterval) -> (r: Poller)
        ensures
            r.interval == interval,
            r.phase == PollerPhase::Idle,
    {
        Poller { interval, phase: PollerPhase::Idle }
    }

    /// Takes one event and says what to do next.
    pub fn on_event(&mut self, ev: PollerEvent) -> (a: PollerAction)
        ensures
            final(self).interval == old(self).interval,
            ev is Cancel || old(self).phase is Stopped ==> final(self).phase == PollerPhase::Stopped
                && a == PollerAction::Stop,
            ev is Start && old(self).phase is Idle ==> final(self).phase == PollerPhase::Polling
                && a == PollerAction::Poll,
            ev == PollerEvent::TickDone(true) && old(self).phase is Polling
                ==> final(self).phase == PollerPhase::Sleeping && a == PollerAction::Sleep(old(self).interval),
            ev == PollerEvent::TickDone(false) && old(self).phase is Polling
                ==> final(self).phase == PollerPhase::Sleeping
                && a == PollerAction::ReportAndSleep(old(self).interval),
            ev is Woke && old(self).phase is Sleeping ==> final(self).phase == PollerPhase::Polling
                && a == PollerAction::Poll,
            !(ev is Cancel) && !(old(self).phase is Stopped)
                && !(ev is Start && old(self).phase is Idle)
                && !(ev is TickDone && old(self).phase is Polling)
                && !(ev is Woke && old(self).phase is Sleeping)
                ==> final(self).phase == old(self).phase && a == PollerAction::Ignore,
    {
        match (self.phase, ev) {
            (PollerPhase::Stopped, _) | (_, PollerEvent::Cancel) => {
                self.phase = PollerPhase::Stopped;
                PollerAction::Stop
            },
            (PollerPhase::Idle, PollerEvent::Start) | (PollerPhase::Sleeping, PollerEvent::Woke) => {
                self.phase = PollerPhase::Polling;
                PollerAction::Poll
            },
            (PollerPhase::Polling, PollerEvent::TickDone(ok)) => {
                self.phase = PollerPhase::Sleeping;
                if ok {
                    PollerAction::Sleep(self.interval)
                } else {
                    PollerAction::ReportAndSleep(self.interval)
                }
            },
            _ => PollerAction::Ignore,
        }
    }
}

} // verus!
