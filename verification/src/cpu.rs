//! The CPU domain: how the processor's time between two readings of its
//! counters divides into shares.
//!
//! The shares are counted in ticks. Turning them into percentages is a matter
//! of dividing, which is left to whoever reports them.

use vstd::prelude::*;

verus! {

/// The processor's counters at one instant, in ticks, with the number of
/// processors and the number of counters that the system reports.
#[derive(Debug, Clone, Copy, PartialEq, Eq)]
pub struct CpuTimes {
    pub user: u64,
    pub nice: u64,
    pub system: u64,
    pub idle: u64,
    pub iowait: u64,
    pub irq: u64,
    pub softirq: u64,
    pub steal: u64,
    pub guest: u64,
    pub total: u64,
    pub cpu_count: u64,
    pub stat_count: u64,
}

/// The ticks that went to one kind of work, under the name of its metric.
#[derive(Debug, Clone, PartialEq, Eq)]
pub struct CpuShare {
    pub name: String,
    pub ticks: u64,
}

impl View for CpuShare {
    type V = (Seq<char>, int);

    open spec fn view(&self) -> (Seq<char>, int) {
        (self.name@, self.ticks as int)
    }
}

/// The shares of a vector, each by its view.
pub open spec fn shares_view(v: Seq<CpuShare>) -> Seq<(Seq<char>, int)> {
    Seq::new(v.len(), |i: int| v[i]@)
}

/// How the time between two readings divides: the shares, the ticks that
/// passed in all, and the number of processors.
#[derive(Debug, Clone, PartialEq, Eq)]
pub struct CpuUsage {
    pub shares: Vec<CpuShare>,
    pub total: u64,
    pub cpu_count: u64,
}

/// How many shares are reported for a system with `stat_count` counters:
/// the first four always, the fifth to the ninth where the system has them.
pub open spec fn share_count(stat_count: u64) -> int {
    if stat_count >= 9 {
        9
    } else if stat_count >= 5 {
        stat_count as int
    } else {
        4
    }
}

/// The metric name of the share at place `i`.
pub open spec fn share_name(i: int) -> Seq<char> {
    if i == 0 {
        "cpu.user.percentage"@
    } else if i == 1 {
        "cpu.nice.percentage"@
    } else if i == 2 {
        "cpu.system.percentage"@
    } else if i == 3 {
        "cpu.idle.percentage"@
    } else if i == 4 {
        "cpu.iowait.percentage"@
    } else if i == 5 {
        "cpu.irq.percentage"@
    } else if i == 6 {
        "cpu.softirq.percentage"@
    } else if i == 7 {
        "cpu.steal.percentage"@
    } else {
        "cpu.guest.percentage"@
    }
}

/// The counter behind the share at place `i`. User time is counted without
/// the time spent running guests.
pub open spec fn share_counter(times: CpuTimes, i: int) -> int {
    if i == 0 {
        times.user - times.guest
    } else if i == 1 {
        times.nice as int
    } else if i == 2 {
        times.system as int
    } else if i == 3 {
        times.idle as int
    } else if i == 4 {
        times.iowait as int
    } else if i == 5 {
        times.irq as int
    } else if i == 6 {
        times.softirq as int
    } else if i == 7 {
        times.steal as int
    } else {
        times.guest as int
    }
}

/// The ticks of the share at place `i` between two readings.
pub open spec fn share_ticks(previous: CpuTimes, current: CpuTimes, i: int) -> int {
    share_counter(current, i) - share_counter(previous, i)
}

/// Whether the two readings can be compared: no counter that is reported ran
/// backwards, and at neither reading was more time spent on guests than on
/// user work in all.
pub open spec fn comparable(previous: CpuTimes, current: CpuTimes) -> bool {
    &&& previous.total <= current.total
    &&& previous.guest <= previous.user
    &&& current.guest <= current.user
    &&& forall|i: int|
        0 <= i < share_count(current.stat_count) ==> 0 <= #[trigger] share_ticks(
            previous,
            current,
            i,
        )
}

/// The shares reported for two readings, in their fixed order.
pub open spec fn cpu_shares(previous: CpuTimes, current: CpuTimes) -> Seq<(Seq<char>, int)> {
    Seq::new(
        share_count(current.stat_count) as nat,
        |i: int| (share_name(i), share_ticks(previous, current, i)),
    )
}

/// Appends the share `name` with the ticks from `previous` to `current`,
/// unless the counter ran backwards.
fn push_share(shares: &mut Vec<CpuShare>, name: &str, previous: u64, current: u64) -> (pushed: bool)
    ensures
        pushed <==> previous <= current,
        pushed ==> shares_view(final(shares)@) == shares_view(old(shares)@).push(
            (name@, current - previous),
        ),
        !pushed ==> final(shares)@ == old(shares)@,
{
    if current < previous {
        return false;
    }
    let ghost before = shares_view(shares@);
    shares.push(CpuShare { name: name.to_owned(), ticks: current - previous });
    assert(shares_view(shares@) =~= before.push((name@, current - previous)));
    true
}

/// How the time between the readings `previous` and `current` divides into
/// shares. There is no answer where the readings cannot be compared.
pub fn cpu_usage(previous: &CpuTimes, current: &CpuTimes) -> (usage: Option<CpuUsage>)
    ensures
        usage is Some <==> comparable(*previous, *current),
        usage matches Some(u) ==> {
            &&& shares_view(u.shares@) == cpu_shares(*previous, *current)
            &&& u.total == current.total - previous.total
            &&& u.cpu_count == current.cpu_count
        },
{
    if current.total < previous.total || current.guest > current.user || previous.guest
        > previous.user {
        return None;
    }
    let p = *previous;
    let c = *current;
    let mut shares: Vec<CpuShare> = Vec::new();
    assert(shares_view(shares@) =~= cpu_shares(p, c).take(0));
    if !push_share(&mut shares, "cpu.user.percentage", p.user - p.guest, c.user - c.guest) {
        assert(share_ticks(p, c, 0) < 0);
        return None;
    }
    assert(shares_view(shares@) =~= cpu_shares(p, c).take(1));
    if !push_share(&mut shares, "cpu.nice.percentage", p.nice, c.nice) {
        assert(share_ticks(p, c, 1) < 0);
        return None;
    }
    assert(shares_view(shares@) =~= cpu_shares(p, c).take(2));
    if !push_share(&mut shares, "cpu.system.percentage", p.system, c.system) {
        assert(share_ticks(p, c, 2) < 0);
        return None;
    }
    assert(shares_view(shares@) =~= cpu_shares(p, c).take(3));
    if !push_share(&mut shares, "cpu.idle.percentage", p.idle, c.idle) {
        assert(share_ticks(p, c, 3) < 0);
        return None;
    }
    assert(shares_view(shares@) =~= cpu_shares(p, c).take(4));
    if c.stat_count >= 5 {
        if !push_share(&mut shares, "cpu.iowait.percentage", p.iowait, c.iowait) {
            assert(share_ticks(p, c, 4) < 0);
            return None;
        }
        assert(shares_view(shares@) =~= cpu_shares(p, c).take(5));
    }
    if c.stat_count >= 6 {
        if !push_share(&mut shares, "cpu.irq.percentage", p.irq, c.irq) {
            assert(share_ticks(p, c, 5) < 0);
            return None;
        }
        assert(shares_view(shares@) =~= cpu_shares(p, c).take(6));
    }
    if c.stat_count >= 7 {
        if !push_share(&mut shares, "cpu.softirq.percentage", p.softirq, c.softirq) {
            assert(share_ticks(p, c, 6) < 0);
            return None;
        }
        assert(shares_view(shares@) =~= cpu_shares(p, c).take(7));
    }
    if c.stat_count >= 8 {
        if !push_share(&mut shares, "cpu.steal.percentage", p.steal, c.steal) {
            assert(share_ticks(p, c, 7) < 0);
            return None;
        }
        assert(shares_view(shares@) =~= cpu_shares(p, c).take(8));
    }
    if c.stat_count >= 9 {
        if !push_share(&mut shares, "cpu.guest.percentage", p.guest, c.guest) {
            assert(share_ticks(p, c, 8) < 0);
            return None;
        }
        assert(shares_view(shares@) =~= cpu_shares(p, c).take(9));
    }
    assert(shares_view(shares@) =~= cpu_shares(p, c));
    assert forall|i: int| 0 <= i < share_count(c.stat_count) implies 0 <= #[trigger] share_ticks(
        p,
        c,
        i,
    ) by {
        assert(shares_view(shares@)[i].1 == share_ticks(p, c, i));
    }
    Some(CpuUsage { shares, total: c.total - p.total, cpu_count: c.cpu_count })
}

} // verus!
