//! The agent and the cycle it runs: wait for the tick, collect, merge,
//! deliver, wait again.
//!
//! The agent decides; whoever drives it does the waiting, the sampling and
//! the sending, and reports each back as an event.

use crate::aggregate::{
    aggregate, cycle_error, failures, first_failure, lemma_first_failure, lemma_hardened_keeps_sampled,
    lemma_merged_entries, merged_entries, non_colliding, outcomes_samples, outcomes_view, sampled,
    samples_to_maps, CycleError, DomainOutcome, FailurePolicy,
};
use crate::config::Config;
use crate::deliver::{
    lemma_records_match_mapping, records_view, snapshot_records, wire_records, HostMetricRecord,
    RecordView,
};
use crate::values::to_map;
use vstd::prelude::*;

verus! {

/// Seconds between two ticks of the timer.
pub const TICK_PERIOD_SECS: u64 = 5;

/// Where a cycle stands.
#[derive(Debug, Clone, Copy, PartialEq, Eq, Structural)]
pub enum CyclePhase {
    /// The next tick has not come yet.
    AwaitingTick,
    /// The domains are being sampled.
    Collecting,
    /// `records` records were handed out and their delivery is under way.
    Delivering { records: usize },
    /// The agent gave up.
    Stopped { error: CycleError },
}

/// What the driver reports.
#[derive(Debug)]
pub enum CycleEvent {
    /// The timer fired.
    Tick,
    /// Every domain has finished; `outcomes` holds what each handed in, in
    /// arrival order, and `now` the time in seconds since the epoch.
    Collected { outcomes: Vec<DomainOutcome>, now: u64 },
    /// The send has returned.
    Delivered { ok: bool },
}

/// A `CycleEvent` with the outcomes as their samples.
pub ghost enum CycleEventView {
    Tick,
    Collected { outcomes: Seq<Option<Seq<(Seq<char>, u64)>>>, now: u64 },
    Delivered { ok: bool },
}

impl View for CycleEvent {
    type V = CycleEventView;

    open spec fn view(&self) -> CycleEventView {
        match self {
            CycleEvent::Tick => CycleEventView::Tick,
            CycleEvent::Collected { outcomes, now } => CycleEventView::Collected {
                outcomes: outcomes_samples(outcomes@),
                now: *now,
            },
            CycleEvent::Delivered { ok } => CycleEventView::Delivered { ok: *ok },
        }
    }
}

/// What the driver is to do next.
#[derive(Debug, PartialEq, Eq)]
pub enum CycleAction {
    /// Wait for the timer. `dropped` counts the records of the cycle just
    /// ended that were not delivered.
    WaitForTick { dropped: usize },
    /// Sample every domain.
    Collect,
    /// Send these records.
    Deliver { records: Vec<HostMetricRecord> },
    /// Stop the agent.
    Halt { error: CycleError },
    /// The event is not one that the phase waits for; go on as before.
    Ignore,
}

/// A `CycleAction` with the records by their views.
pub ghost enum CycleActionView {
    WaitForTick { dropped: usize },
    Collect,
    Deliver { records: Seq<RecordView> },
    Halt { error: CycleError },
    Ignore,
}

impl View for CycleAction {
    type V = CycleActionView;

    open spec fn view(&self) -> CycleActionView {
        match self {
            CycleAction::WaitForTick { dropped } => CycleActionView::WaitForTick {
                dropped: *dropped,
            },
            CycleAction::Collect => CycleActionView::Collect,
            CycleAction::Deliver { records } => CycleActionView::Deliver {
                records: records_view(records@),
            },
            CycleAction::Halt { error } => CycleActionView::Halt { error: *error },
            CycleAction::Ignore => CycleActionView::Ignore,
        }
    }
}

/// The phase and the action that follow `event` in `phase`, for the host
/// `host_id` under `policy`.
pub open spec fn cycle_step(
    host_id: Seq<char>,
    policy: FailurePolicy,
    phase: CyclePhase,
    event: CycleEventView,
) -> (CyclePhase, CycleActionView) {
    match (phase, event) {
        (CyclePhase::Stopped { error }, _) => (phase, CycleActionView::Halt { error }),
        (CyclePhase::AwaitingTick, CycleEventView::Tick) => (
            CyclePhase::Collecting,
            CycleActionView::Collect,
        ),
        (CyclePhase::Collecting, CycleEventView::Collected { outcomes, now }) => match cycle_error(
            failures(outcomes),
            policy,
        ) {
            Some(error) => (CyclePhase::Stopped { error }, CycleActionView::Halt { error }),
            None => (
                CyclePhase::Delivering { records: merged_entries(outcomes).len() as usize },
                CycleActionView::Deliver {
                    records: wire_records(host_id, merged_entries(outcomes), now),
                },
            ),
        },
        (CyclePhase::Delivering { records }, CycleEventView::Delivered { ok }) => (
            CyclePhase::AwaitingTick,
            CycleActionView::WaitForTick {
                dropped: if ok {
                    0
                } else {
                    records
                },
            },
        ),
        _ => (phase, CycleActionView::Ignore),
    }
}

/// The agent of one host.
#[derive(Debug)]
pub struct Agent {
    pub config: Config,
    pub host_id: String,
    pub policy: FailurePolicy,
}

impl Agent {
    /// An agent for the host `host_id`. It starts under `Baseline`.
    pub fn new(config: Config, host_id: String) -> (agent: Agent)
        ensures
            agent.config == config,
            agent.host_id == host_id,
            agent.policy == FailurePolicy::Baseline,
    {
        Agent { config, host_id, policy: FailurePolicy::Baseline }
    }

    /// The same agent under `policy`.
    pub fn with_policy(self, policy: FailurePolicy) -> (agent: Agent)
        ensures
            agent.config == self.config,
            agent.host_id == self.host_id,
            agent.policy == policy,
    {
        Agent { config: self.config, host_id: self.host_id, policy }
    }

    /// The phase in which every run starts, with the action to begin with.
    pub fn start() -> (first: (CyclePhase, CycleAction))
        ensures
            first.0 == CyclePhase::AwaitingTick,
            first.1@ == (CycleActionView::WaitForTick { dropped: 0 }),
    {
        (CyclePhase::AwaitingTick, CycleAction::WaitForTick { dropped: 0 })
    }

    /// Takes `event` in `phase` and says where the cycle stands afterwards
    /// and what is to be done.
    pub fn step(&self, phase: CyclePhase, event: CycleEvent) -> (next: (CyclePhase, CycleAction))
        ensures
            (next.0, next.1@) == cycle_step(self.host_id@, self.policy, phase, event@),
    {
        match phase {
            CyclePhase::Stopped { error } => (phase, CycleAction::Halt { error }),
            CyclePhase::AwaitingTick => match event {
                CycleEvent::Tick => (CyclePhase::Collecting, CycleAction::Collect),
                _ => (phase, CycleAction::Ignore),
            },
            CyclePhase::Collecting => match event {
                CycleEvent::Collected { outcomes, now } => {
                    assert(failures(outcomes_view(outcomes@)) =~= failures(
                        outcomes_samples(outcomes@),
                    ));
                    match aggregate(&outcomes, self.policy, now) {
                        Ok(snapshot) => {
                            let records = snapshot_records(self.host_id.as_str(), snapshot);
                            assert(records_view(records@).len() == records@.len());
                            (
                                CyclePhase::Delivering { records: records.len() },
                                CycleAction::Deliver { records },
                            )
                        },
                        Err(error) => (CyclePhase::Stopped { error }, CycleAction::Halt { error }),
                    }
                },
                _ => (phase, CycleAction::Ignore),
            },
            CyclePhase::Delivering { records } => match event {
                CycleEvent::Delivered { ok } => (
                    CyclePhase::AwaitingTick,
                    CycleAction::WaitForTick {
                        dropped: if ok {
                            0
                        } else {
                            records
                        },
                    },
                ),
                _ => (phase, CycleAction::Ignore),
            },
        }
    }
}

/// The phase reached from `phase` after `events`, taken in order.
pub open spec fn cycle_run(
    host_id: Seq<char>,
    policy: FailurePolicy,
    phase: CyclePhase,
    events: Seq<CycleEventView>,
) -> CyclePhase
    decreases events.len(),
{
    if events.len() == 0 {
        phase
    } else {
        cycle_step(host_id, policy, cycle_run(host_id, policy, phase, events.drop_last()), events.last()).0
    }
}

/// A failed delivery ends the cycle as a successful one does: the agent
/// waits for the next tick, and on that tick it collects again. The records
/// that were handed out are counted as dropped.
pub proof fn lemma_delivery_failure_keeps_schedule(
    host_id: Seq<char>,
    policy: FailurePolicy,
    records: usize,
)
    ensures
        cycle_step(
            host_id,
            policy,
            CyclePhase::Delivering { records },
            CycleEventView::Delivered { ok: false },
        ) == (CyclePhase::AwaitingTick, CycleActionView::WaitForTick { dropped: records }),
        cycle_step(
            host_id,
            policy,
            CyclePhase::Delivering { records },
            CycleEventView::Delivered { ok: true },
        ) == (CyclePhase::AwaitingTick, CycleActionView::WaitForTick { dropped: 0 }),
        cycle_step(host_id, policy, CyclePhase::AwaitingTick, CycleEventView::Tick) == (
            CyclePhase::Collecting,
            CycleActionView::Collect,
        ),
{
}

/// The agent stops for one reason only: a domain failed while it collected
/// under `Baseline`. Once stopped it stays stopped.
pub proof fn lemma_stops_only_on_collector_failure(
    host_id: Seq<char>,
    policy: FailurePolicy,
    phase: CyclePhase,
    event: CycleEventView,
)
    ensures
        phase is Stopped ==> cycle_step(host_id, policy, phase, event).0 == phase,
        !(phase is Stopped) && cycle_step(host_id, policy, phase, event).0 is Stopped ==> {
            &&& policy == FailurePolicy::Baseline
            &&& phase is Collecting
            &&& event is Collected
            &&& exists|i: int|
                0 <= i < event->outcomes.len() && (#[trigger] event->outcomes[i]) is None
        },
{
    if !(phase is Stopped) && cycle_step(host_id, policy, phase, event).0 is Stopped {
        let failed = failures(event->outcomes);
        lemma_first_failure(failed, failed.len() as int);
        assert(event->outcomes[first_failure(failed)] is None);
    }
}

/// Under `Hardened` no sequence of events stops an agent that was not
/// stopped before.
pub proof fn lemma_hardened_never_stops(
    host_id: Seq<char>,
    phase: CyclePhase,
    events: Seq<CycleEventView>,
)
    requires
        !(phase is Stopped),
    ensures
        !(cycle_run(host_id, FailurePolicy::Hardened, phase, events) is Stopped),
    decreases events.len(),
{
    if events.len() > 0 {
        lemma_hardened_never_stops(host_id, phase, events.drop_last());
        lemma_stops_only_on_collector_failure(
            host_id,
            FailurePolicy::Hardened,
            cycle_run(host_id, FailurePolicy::Hardened, phase, events.drop_last()),
            events.last(),
        );
    }
}

/// Cycles do not overlap: collecting begins only on a tick while the agent
/// waits for one, records are handed out only when a collection has ended,
/// and the agent comes to wait for a tick only when a delivery has returned.
pub proof fn lemma_cycles_do_not_overlap(
    host_id: Seq<char>,
    policy: FailurePolicy,
    phase: CyclePhase,
    event: CycleEventView,
)
    ensures
        cycle_step(host_id, policy, phase, event).1 is Collect ==> phase is AwaitingTick
            && event is Tick,
        cycle_step(host_id, policy, phase, event).1 is Deliver ==> phase is Collecting
            && event is Collected,
        cycle_step(host_id, policy, phase, event).1 is WaitForTick ==> phase is Delivering
            && event is Delivered,
        cycle_step(host_id, policy, phase, event).0 is Collecting ==> phase is Collecting || (
        phase is AwaitingTick && event is Tick),
        cycle_step(host_id, policy, phase, event).0 is AwaitingTick ==> phase is AwaitingTick || (
        phase is Delivering && event is Delivered),
{
}

/// Under `Hardened`, when a collection ends with some domains failed, the
/// records handed out still carry what every other domain sampled: where no
/// two domains share a name, each sample of a domain that did not fail has
/// its record, for this host and stamped with the time of the collection.
pub proof fn lemma_hardened_delivers_sampled(
    host_id: Seq<char>,
    outcomes: Seq<Option<Seq<(Seq<char>, u64)>>>,
    now: u64,
    domain: int,
    name: Seq<char>,
)
    requires
        0 <= domain < outcomes.len(),
        outcomes[domain] is Some,
        to_map(outcomes[domain]->Some_0).contains_key(name),
        non_colliding(sampled(samples_to_maps(outcomes))),
    ensures
        ({
            let next = cycle_step(
                host_id,
                FailurePolicy::Hardened,
                CyclePhase::Collecting,
                CycleEventView::Collected { outcomes, now },
            );
            &&& next.0 is Delivering
            &&& next.1 is Deliver
            &&& exists|i: int|
                0 <= i < next.1->records.len() && #[trigger] next.1->records[i] == (RecordView {
                    host_id,
                    name,
                    value: to_map(outcomes[domain]->Some_0)[name],
                    time: now,
                })
        }),
{
    let entries = merged_entries(outcomes);
    let maps = samples_to_maps(outcomes);
    let records = wire_records(host_id, entries, now);
    lemma_merged_entries(outcomes);
    lemma_hardened_keeps_sampled(maps, now, domain);
    lemma_records_match_mapping(host_id, entries, now);
    assert(maps[domain]->Some_0 == to_map(outcomes[domain]->Some_0));
    assert(to_map(outcomes[domain]->Some_0).dom().contains(name));
    assert(to_map(entries).contains_key(name));
    let i = choose|i: int| 0 <= i < entries.len() && (#[trigger] records[i]).name == name;
    assert(to_map(entries)[records[i].name] == records[i].value);
    assert(records[i] == (RecordView {
        host_id,
        name,
        value: to_map(outcomes[domain]->Some_0)[name],
        time: now,
    }));
    let next = cycle_step(
        host_id,
        FailurePolicy::Hardened,
        CyclePhase::Collecting,
        CycleEventView::Collected { outcomes, now },
    );
    assert(next.1 == (CycleActionView::Deliver { records }));
    assert(0 <= i < next.1->records.len());
}

} // verus!
