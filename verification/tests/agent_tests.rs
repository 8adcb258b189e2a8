use mackerel_agent::agent::{CycleAction, CycleEvent, CyclePhase, TICK_PERIOD_SECS};
use mackerel_agent::aggregate::{CycleError, DomainOutcome, FailurePolicy};
use mackerel_agent::config::Config;
use mackerel_agent::deliver::HostMetricRecord;
use mackerel_agent::{Agent, Values};

fn test_agent(policy: FailurePolicy) -> Agent {
    let config = Config { api_key: "X".to_string(), apibase: "https://example.test/".to_string() };
    Agent::new(config, "abc123".to_string()).with_policy(policy)
}

fn one_sample(name: &str, value: f64) -> DomainOutcome {
    let mut values = Values::new();
    values.insert(name.to_string(), value.to_bits());
    DomainOutcome::Sampled(values)
}

fn record(name: &str, value: f64, time: u64) -> HostMetricRecord {
    HostMetricRecord {
        host_id: "abc123".to_string(),
        name: name.to_string(),
        value: value.to_bits(),
        time,
    }
}

#[test]
fn new_agent_keeps_config_and_host_and_starts_under_baseline() {
    let config = Config { api_key: "X".to_string(), apibase: "https://example.test/".to_string() };
    let agent = Agent::new(config.clone(), "abc123".to_string());
    assert_eq!(agent.config, config);
    assert_eq!(agent.host_id, "abc123");
    assert_eq!(agent.policy, FailurePolicy::Baseline);
    let hardened = agent.with_policy(FailurePolicy::Hardened);
    assert_eq!(hardened.config, config);
    assert_eq!(hardened.host_id, "abc123");
    assert_eq!(hardened.policy, FailurePolicy::Hardened);
}

#[test]
fn a_run_starts_by_waiting_for_the_tick() {
    let (phase, action) = Agent::start();
    assert_eq!(phase, CyclePhase::AwaitingTick);
    assert_eq!(action, CycleAction::WaitForTick { dropped: 0 });
}

#[test]
fn a_full_cycle_collects_delivers_and_waits_again() {
    let agent = test_agent(FailurePolicy::Baseline);
    let (phase, action) = agent.step(CyclePhase::AwaitingTick, CycleEvent::Tick);
    assert_eq!(phase, CyclePhase::Collecting);
    assert_eq!(action, CycleAction::Collect);

    let outcomes =
        vec![one_sample("cpu.idle.percentage", 50.0), one_sample("mem.used.percentage", 30.0)];
    let (phase, action) = agent.step(phase, CycleEvent::Collected { outcomes, now: 1000 });
    assert_eq!(phase, CyclePhase::Delivering { records: 2 });
    assert_eq!(
        action,
        CycleAction::Deliver {
            records: vec![
                record("cpu.idle.percentage", 50.0, 1000),
                record("mem.used.percentage", 30.0, 1000),
            ],
        }
    );

    let (phase, action) = agent.step(phase, CycleEvent::Delivered { ok: true });
    assert_eq!(phase, CyclePhase::AwaitingTick);
    assert_eq!(action, CycleAction::WaitForTick { dropped: 0 });
}

#[test]
fn a_failed_delivery_does_not_hold_up_the_next_tick() {
    for policy in [FailurePolicy::Baseline, FailurePolicy::Hardened] {
        let agent = test_agent(policy);
        let (phase, action) =
            agent.step(CyclePhase::Delivering { records: 3 }, CycleEvent::Delivered { ok: false });
        assert_eq!(phase, CyclePhase::AwaitingTick);
        assert_eq!(action, CycleAction::WaitForTick { dropped: 3 });
        let (phase, action) = agent.step(phase, CycleEvent::Tick);
        assert_eq!(phase, CyclePhase::Collecting);
        assert_eq!(action, CycleAction::Collect);
    }
}

#[test]
fn baseline_stops_when_a_domain_fails() {
    let agent = test_agent(FailurePolicy::Baseline);
    let outcomes = vec![one_sample("a", 1.0), DomainOutcome::Failed];
    let (phase, action) =
        agent.step(CyclePhase::Collecting, CycleEvent::Collected { outcomes, now: 1 });
    let error = CycleError::CollectorFailed { domain: 1 };
    assert_eq!(phase, CyclePhase::Stopped { error });
    assert_eq!(action, CycleAction::Halt { error });

    let (phase, action) = agent.step(phase, CycleEvent::Tick);
    assert_eq!(phase, CyclePhase::Stopped { error });
    assert_eq!(action, CycleAction::Halt { error });
}

#[test]
fn hardened_delivers_what_the_other_domains_sampled() {
    let agent = test_agent(FailurePolicy::Hardened);
    let outcomes = vec![
        one_sample("cpu.idle.percentage", 50.0),
        DomainOutcome::Failed,
        one_sample("mem.used.percentage", 30.0),
    ];
    let (phase, action) =
        agent.step(CyclePhase::Collecting, CycleEvent::Collected { outcomes, now: 77 });
    assert_eq!(phase, CyclePhase::Delivering { records: 2 });
    assert_eq!(
        action,
        CycleAction::Deliver {
            records: vec![
                record("cpu.idle.percentage", 50.0, 77),
                record("mem.used.percentage", 30.0, 77),
            ],
        }
    );
}

#[test]
fn hardened_goes_on_even_when_every_domain_failed() {
    let agent = test_agent(FailurePolicy::Hardened);
    let outcomes = vec![DomainOutcome::Failed, DomainOutcome::Failed];
    let (phase, action) =
        agent.step(CyclePhase::Collecting, CycleEvent::Collected { outcomes, now: 77 });
    assert_eq!(phase, CyclePhase::Delivering { records: 0 });
    assert_eq!(action, CycleAction::Deliver { records: Vec::new() });
}

#[test]
fn events_out_of_turn_are_ignored() {
    let agent = test_agent(FailurePolicy::Hardened);

    let (phase, action) = agent.step(CyclePhase::AwaitingTick, CycleEvent::Delivered { ok: true });
    assert_eq!(phase, CyclePhase::AwaitingTick);
    assert_eq!(action, CycleAction::Ignore);

    let (phase, action) = agent
        .step(CyclePhase::AwaitingTick, CycleEvent::Collected { outcomes: Vec::new(), now: 1 });
    assert_eq!(phase, CyclePhase::AwaitingTick);
    assert_eq!(action, CycleAction::Ignore);

    let (phase, action) = agent.step(CyclePhase::Collecting, CycleEvent::Tick);
    assert_eq!(phase, CyclePhase::Collecting);
    assert_eq!(action, CycleAction::Ignore);

    let (phase, action) = agent.step(CyclePhase::Delivering { records: 4 }, CycleEvent::Tick);
    assert_eq!(phase, CyclePhase::Delivering { records: 4 });
    assert_eq!(action, CycleAction::Ignore);
}

#[test]
fn many_cycles_run_one_after_another() {
    let agent = test_agent(FailurePolicy::Hardened);
    let (mut phase, mut action) = Agent::start();
    let mut delivered: Vec<Vec<HostMetricRecord>> = Vec::new();
    let mut clock: u64 = 100;
    let mut rounds: u32 = 0;
    while delivered.len() < 3 {
        rounds += 1;
        assert!(rounds < 20);
        let event = match action {
            CycleAction::WaitForTick { .. } => CycleEvent::Tick,
            CycleAction::Collect => {
                clock += 5;
                CycleEvent::Collected { outcomes: vec![one_sample("loadavg5", 0.5)], now: clock }
            }
            CycleAction::Deliver { records } => {
                delivered.push(records);
                CycleEvent::Delivered { ok: delivered.len() != 2 }
            }
            CycleAction::Halt { .. } | CycleAction::Ignore => panic!("the cycle went astray"),
        };
        let next = agent.step(phase, event);
        phase = next.0;
        action = next.1;
    }
    assert_eq!(
        delivered,
        vec![
            vec![record("loadavg5", 0.5, 105)],
            vec![record("loadavg5", 0.5, 110)],
            vec![record("loadavg5", 0.5, 115)],
        ]
    );
}

#[test]
fn the_timer_ticks_every_five_seconds() {
    assert_eq!(TICK_PERIOD_SECS, 5);
}
