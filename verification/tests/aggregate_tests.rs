use mackerel_agent::aggregate::{aggregate, CycleError, DomainOutcome, FailurePolicy};
use mackerel_agent::Values;

fn part(samples: &[(&str, f64)]) -> Values {
    let mut values = Values::new();
    for (name, value) in samples {
        values.insert(name.to_string(), value.to_bits());
    }
    values
}

fn sampled(samples: &[(&str, f64)]) -> DomainOutcome {
    DomainOutcome::Sampled(part(samples))
}

#[test]
fn merging_two_parts_keeps_both_entries() {
    let outcomes = vec![
        sampled(&[("cpu.idle.percentage", 50.0)]),
        sampled(&[("mem.used.percentage", 30.0)]),
    ];
    let snapshot = aggregate(&outcomes, FailurePolicy::Baseline, 1_700_000_000).unwrap();
    assert_eq!(snapshot.time, 1_700_000_000);
    assert_eq!(snapshot.metrics.len(), 2);
    assert_eq!(snapshot.metrics.get("cpu.idle.percentage"), Some(50.0f64.to_bits()));
    assert_eq!(snapshot.metrics.get("mem.used.percentage"), Some(30.0f64.to_bits()));
}

#[test]
fn merging_two_parts_in_the_other_order_gives_the_same() {
    let outcomes = vec![
        sampled(&[("mem.used.percentage", 30.0)]),
        sampled(&[("cpu.idle.percentage", 50.0)]),
    ];
    let snapshot = aggregate(&outcomes, FailurePolicy::Baseline, 1_700_000_000).unwrap();
    assert_eq!(snapshot.time, 1_700_000_000);
    assert_eq!(snapshot.metrics.len(), 2);
    assert_eq!(snapshot.metrics.get("cpu.idle.percentage"), Some(50.0f64.to_bits()));
    assert_eq!(snapshot.metrics.get("mem.used.percentage"), Some(30.0f64.to_bits()));
}

#[test]
fn every_arrival_order_gives_the_same_mapping() {
    let orders: [[usize; 3]; 6] =
        [[0, 1, 2], [0, 2, 1], [1, 0, 2], [1, 2, 0], [2, 0, 1], [2, 1, 0]];
    for order in orders {
        let mut outcomes: Vec<DomainOutcome> = Vec::new();
        for domain in order {
            outcomes.push(match domain {
                0 => sampled(&[("cpu.user.percentage", 12.5), ("cpu.idle.percentage", 80.0)]),
                1 => sampled(&[("memory.used", 1024.0)]),
                _ => sampled(&[("loadavg5", 0.25), ("loadavg1", 0.5)]),
            });
        }
        let snapshot = aggregate(&outcomes, FailurePolicy::Hardened, 42).unwrap();
        assert_eq!(snapshot.time, 42);
        assert_eq!(snapshot.metrics.len(), 5);
        assert_eq!(snapshot.metrics.get("cpu.user.percentage"), Some(12.5f64.to_bits()));
        assert_eq!(snapshot.metrics.get("cpu.idle.percentage"), Some(80.0f64.to_bits()));
        assert_eq!(snapshot.metrics.get("memory.used"), Some(1024.0f64.to_bits()));
        assert_eq!(snapshot.metrics.get("loadavg5"), Some(0.25f64.to_bits()));
        assert_eq!(snapshot.metrics.get("loadavg1"), Some(0.5f64.to_bits()));
    }
}

#[test]
fn a_name_sampled_twice_takes_the_later_value() {
    let outcomes = vec![sampled(&[("x", 1.0), ("y", 2.0)]), sampled(&[("x", 3.0)])];
    let snapshot = aggregate(&outcomes, FailurePolicy::Baseline, 0).unwrap();
    assert_eq!(snapshot.metrics.len(), 2);
    assert_eq!(snapshot.metrics.get("x"), Some(3.0f64.to_bits()));
    assert_eq!(snapshot.metrics.get("y"), Some(2.0f64.to_bits()));
}

#[test]
fn no_outcomes_give_an_empty_snapshot() {
    let snapshot = aggregate(&Vec::new(), FailurePolicy::Baseline, 9).unwrap();
    assert!(snapshot.metrics.is_empty());
    assert_eq!(snapshot.time, 9);
}

#[test]
fn baseline_fails_on_the_first_failed_domain() {
    let outcomes = vec![
        sampled(&[("a", 1.0)]),
        DomainOutcome::Failed,
        sampled(&[("b", 2.0)]),
        DomainOutcome::Failed,
    ];
    let result = aggregate(&outcomes, FailurePolicy::Baseline, 5);
    assert_eq!(result.err(), Some(CycleError::CollectorFailed { domain: 1 }));
}

#[test]
fn hardened_leaves_the_failed_domain_out() {
    let outcomes = vec![
        sampled(&[("cpu.idle.percentage", 50.0)]),
        DomainOutcome::Failed,
        sampled(&[("mem.used.percentage", 30.0)]),
    ];
    let snapshot = aggregate(&outcomes, FailurePolicy::Hardened, 5).unwrap();
    assert_eq!(snapshot.time, 5);
    assert_eq!(snapshot.metrics.len(), 2);
    assert_eq!(snapshot.metrics.get("cpu.idle.percentage"), Some(50.0f64.to_bits()));
    assert_eq!(snapshot.metrics.get("mem.used.percentage"), Some(30.0f64.to_bits()));
}

#[test]
fn hardened_with_every_domain_failed_gives_an_empty_snapshot() {
    let outcomes = vec![DomainOutcome::Failed, DomainOutcome::Failed];
    let snapshot = aggregate(&outcomes, FailurePolicy::Hardened, 5).unwrap();
    assert!(snapshot.metrics.is_empty());
}

#[test]
fn both_policies_agree_when_nothing_failed() {
    let baseline =
        aggregate(&vec![sampled(&[("a", 1.0)]), sampled(&[("b", 2.0)])], FailurePolicy::Baseline, 3)
            .unwrap();
    let hardened =
        aggregate(&vec![sampled(&[("a", 1.0)]), sampled(&[("b", 2.0)])], FailurePolicy::Hardened, 3)
            .unwrap();
    assert_eq!(baseline.time, hardened.time);
    assert_eq!(baseline.metrics.into_entries(), hardened.metrics.into_entries());
}
