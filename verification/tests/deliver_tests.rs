use mackerel_agent::aggregate::MetricSnapshot;
use mackerel_agent::deliver::{snapshot_records, HostMetricRecord};
use mackerel_agent::{HostMetricWrapper, Values};

#[test]
fn one_record_per_metric_with_shared_host_and_time() {
    let mut values = Values::new();
    values.insert("cpu.idle.percentage".to_string(), 50.0f64.to_bits());
    values.insert("mem.used.percentage".to_string(), 30.0f64.to_bits());
    let records = HostMetricWrapper("abc123", values).into_records(1_700_000_000);
    assert_eq!(
        records,
        vec![
            HostMetricRecord {
                host_id: "abc123".to_string(),
                name: "cpu.idle.percentage".to_string(),
                value: 0x4049_0000_0000_0000,
                time: 1_700_000_000,
            },
            HostMetricRecord {
                host_id: "abc123".to_string(),
                name: "mem.used.percentage".to_string(),
                value: 0x403e_0000_0000_0000,
                time: 1_700_000_000,
            },
        ]
    );
    assert_eq!(f64::from_bits(records[0].value), 50.0);
    assert_eq!(f64::from_bits(records[1].value), 30.0);
}

#[test]
fn no_metrics_give_no_records() {
    let records = HostMetricWrapper("abc123", Values::new()).into_records(7);
    assert!(records.is_empty());
}

#[test]
fn a_replaced_metric_is_sent_once() {
    let mut values = Values::new();
    values.insert("x".to_string(), 1);
    values.insert("x".to_string(), 2);
    let records = HostMetricWrapper("h", values).into_records(3);
    assert_eq!(
        records,
        vec![HostMetricRecord { host_id: "h".to_string(), name: "x".to_string(), value: 2, time: 3 }]
    );
}

#[test]
fn snapshot_records_carry_the_snapshot_time() {
    let mut metrics = Values::new();
    metrics.insert("loadavg5".to_string(), 0.25f64.to_bits());
    let records = snapshot_records("host-1", MetricSnapshot { metrics, time: 99 });
    assert_eq!(records.len(), 1);
    assert_eq!(records[0].host_id, "host-1");
    assert_eq!(records[0].name, "loadavg5");
    assert_eq!(records[0].value, 0.25f64.to_bits());
    assert_eq!(records[0].time, 99);
}
