use mackerel_agent::cpu::{cpu_usage, CpuShare, CpuTimes, CpuUsage};

fn reading(scale: u64, stat_count: u64) -> CpuTimes {
    CpuTimes {
        user: 100 * scale,
        nice: 2 * scale,
        system: 30 * scale,
        idle: 500 * scale,
        iowait: 7 * scale,
        irq: 3 * scale,
        softirq: 5 * scale,
        steal: 11 * scale,
        guest: 13 * scale,
        total: 671 * scale,
        cpu_count: 4,
        stat_count,
    }
}

fn share(name: &str, ticks: u64) -> CpuShare {
    CpuShare { name: name.to_string(), ticks }
}

#[test]
fn all_nine_shares_are_reported_in_order() {
    let usage = cpu_usage(&reading(1, 10), &reading(3, 10)).unwrap();
    assert_eq!(
        usage,
        CpuUsage {
            shares: vec![
                share("cpu.user.percentage", 174),
                share("cpu.nice.percentage", 4),
                share("cpu.system.percentage", 60),
                share("cpu.idle.percentage", 1000),
                share("cpu.iowait.percentage", 14),
                share("cpu.irq.percentage", 6),
                share("cpu.softirq.percentage", 10),
                share("cpu.steal.percentage", 22),
                share("cpu.guest.percentage", 26),
            ],
            total: 1342,
            cpu_count: 4,
        }
    );
}

#[test]
fn user_time_leaves_guest_time_out() {
    let mut previous = reading(1, 4);
    let mut current = reading(1, 4);
    previous.user = 50;
    previous.guest = 20;
    current.user = 90;
    current.guest = 45;
    current.total += 40;
    let usage = cpu_usage(&previous, &current).unwrap();
    assert_eq!(usage.shares[0], share("cpu.user.percentage", 15));
    assert_eq!(usage.total, 40);
}

#[test]
fn older_systems_report_fewer_shares() {
    let expected: [(u64, usize); 8] =
        [(0, 4), (4, 4), (5, 5), (6, 6), (7, 7), (8, 8), (9, 9), (12, 9)];
    for (stat_count, shares) in expected {
        let usage = cpu_usage(&reading(1, stat_count), &reading(2, stat_count)).unwrap();
        assert_eq!(usage.shares.len(), shares);
        assert_eq!(usage.shares[3], share("cpu.idle.percentage", 500));
    }
    let usage = cpu_usage(&reading(1, 6), &reading(2, 6)).unwrap();
    assert_eq!(usage.shares[4], share("cpu.iowait.percentage", 7));
    assert_eq!(usage.shares[5], share("cpu.irq.percentage", 3));
}

#[test]
fn equal_readings_give_shares_of_zero() {
    let usage = cpu_usage(&reading(2, 9), &reading(2, 9)).unwrap();
    assert_eq!(usage.total, 0);
    assert_eq!(usage.shares.len(), 9);
    assert!(usage.shares.iter().all(|s| s.ticks == 0));
}

#[test]
fn a_counter_that_ran_backwards_gives_no_usage() {
    assert_eq!(cpu_usage(&reading(3, 9), &reading(1, 9)), None);

    let mut current = reading(2, 9);
    current.idle = 1;
    assert_eq!(cpu_usage(&reading(1, 9), &current), None);

    let mut current = reading(2, 9);
    current.total = 1;
    assert_eq!(cpu_usage(&reading(1, 9), &current), None);
}

#[test]
fn a_counter_that_is_not_reported_may_run_backwards() {
    let mut current = reading(2, 7);
    current.steal = 0;
    let usage = cpu_usage(&reading(1, 7), &current).unwrap();
    assert_eq!(usage.shares.len(), 7);

    let mut current = reading(2, 8);
    current.steal = 0;
    assert_eq!(cpu_usage(&reading(1, 8), &current), None);
}

#[test]
fn more_guest_than_user_time_gives_no_usage() {
    let mut previous = reading(1, 4);
    previous.guest = previous.user + 1;
    assert_eq!(cpu_usage(&previous, &reading(2, 4)), None);

    let mut current = reading(2, 4);
    current.guest = current.user + 1;
    assert_eq!(cpu_usage(&reading(1, 4), &current), None);
}

#[test]
fn percentages_come_out_of_the_shares() {
    let usage = cpu_usage(&reading(1, 4), &reading(2, 4)).unwrap();
    let idle = &usage.shares[3];
    let percentage = idle.ticks as f64 * usage.cpu_count as f64 * 100.0 / usage.total as f64;
    assert_eq!(percentage, 500.0 * 4.0 * 100.0 / 671.0);
}
