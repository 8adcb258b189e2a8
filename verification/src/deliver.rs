//! Turning a snapshot into the records that go to the metrics service.

use crate::aggregate::MetricSnapshot;
use crate::values::{distinct_names, has_name, lemma_to_map, metrics_view, to_map, Values};
use vstd::prelude::*;

verus! {

/// One record on the wire: a host's value for one metric at one time, the
/// value as the bits of a double, the time in seconds since the epoch.
#[derive(Debug, Clone, PartialEq, Eq)]
pub struct HostMetricRecord {
    pub host_id: String,
    pub name: String,
    pub value: u64,
    pub time: u64,
}

/// A `HostMetricRecord` as plain text and numbers.
pub ghost struct RecordView {
    pub host_id: Seq<char>,
    pub name: Seq<char>,
    pub value: u64,
    pub time: u64,
}

impl View for HostMetricRecord {
    type V = RecordView;

    open spec fn view(&self) -> RecordView {
        RecordView {
            host_id: self.host_id@,
            name: self.name@,
            value: self.value,
            time: self.time,
        }
    }
}

/// The records of a vector, each by its view.
pub open spec fn records_view(v: Seq<HostMetricRecord>) -> Seq<RecordView> {
    Seq::new(v.len(), |i: int| v[i]@)
}

/// One record for each sample of `entries`, in their order, all for the host
/// `host_id` and all stamped `time`.
pub open spec fn wire_records(host_id: Seq<char>, entries: Seq<(Seq<char>, u64)>, time: u64) -> Seq<
    RecordView,
> {
    Seq::new(
        entries.len(),
        |i: int| RecordView { host_id, name: entries[i].0, value: entries[i].1, time },
    )
}

/// A host's identity together with the metrics to send for it.
#[derive(Debug)]
pub struct HostMetricWrapper<'a>(pub &'a str, pub Values);

impl<'a> HostMetricWrapper<'a> {
    /// The records for these metrics: one for each name held, every one for
    /// this host and stamped `time`.
    pub fn into_records(self, time: u64) -> (records: Vec<HostMetricRecord>)
        ensures
            records_view(records@) == wire_records(self.0@, self.1.entries(), time),
            distinct_names(self.1.entries()),
            records@.len() == self.1@.len(),
    {
        let host_id = self.0;
        let entries = self.1.into_entries();
        let mut records: Vec<HostMetricRecord> = Vec::new();
        let mut i: usize = 0;
        while i < entries.len()
            invariant
                i <= entries.len(),
                records@.len() == i,
                forall|k: int|
                    0 <= k < i ==> (#[trigger] records@[k])@ == (RecordView {
                        host_id: host_id@,
                        name: entries@[k].name@,
                        value: entries@[k].value,
                        time,
                    }),
            decreases entries.len() - i,
        {
            records.push(
                HostMetricRecord {
                    host_id: host_id.to_owned(),
                    name: entries[i].name.clone(),
                    value: entries[i].value,
                    time,
                },
            );
            i += 1;
        }
        assert(records_view(records@) =~= wire_records(host_id@, metrics_view(entries@), time));
        records
    }
}

/// The records for a snapshot: one for each metric in it, every one for the
/// host `host_id` and stamped with the snapshot's time.
pub fn snapshot_records(host_id: &str, snapshot: MetricSnapshot) -> (records: Vec<
    HostMetricRecord,
>)
    ensures
        records_view(records@) == wire_records(host_id@, snapshot.metrics.entries(), snapshot.time),
        distinct_names(snapshot.metrics.entries()),
        records@.len() == snapshot@.metrics.len(),
{
    let time = snapshot.time;
    HostMetricWrapper(host_id, snapshot.metrics).into_records(time)
}

/// The records made from samples without repeated names say exactly what the
/// mapping of those samples says: every record gives its metric the value
/// that the mapping holds, and every name of the mapping has its record.
pub proof fn lemma_records_match_mapping(
    host_id: Seq<char>,
    entries: Seq<(Seq<char>, u64)>,
    time: u64,
)
    requires
        distinct_names(entries),
    ensures
        forall|i: int|
            0 <= i < entries.len() ==> {
                let record = #[trigger] wire_records(host_id, entries, time)[i];
                &&& to_map(entries).contains_key(record.name)
                &&& to_map(entries)[record.name] == record.value
                &&& record.host_id == host_id
                &&& record.time == time
            },
        forall|name: Seq<char>| #[trigger]
            to_map(entries).contains_key(name) ==> exists|i: int|
                0 <= i < entries.len() && (#[trigger] wire_records(host_id, entries, time)[i]).name
                    == name,
        forall|i: int, j: int|
            0 <= i < j < entries.len() ==> (#[trigger] wire_records(host_id, entries, time)[i]).name
                != (#[trigger] wire_records(host_id, entries, time)[j]).name,
{
    lemma_to_map(entries);
    let records = wire_records(host_id, entries, time);
    assert forall|i: int| 0 <= i < entries.len() implies {
        let record = #[trigger] records[i];
        &&& to_map(entries).contains_key(record.name)
        &&& to_map(entries)[record.name] == record.value
    } by {
        assert(entries[i].0 == records[i].name);
        assert(has_name(entries, entries[i].0));
        assert(to_map(entries)[entries[i].0] == entries[i].1);
    }
    assert forall|name: Seq<char>| #[trigger] to_map(entries).contains_key(name) implies exists|
        i: int,
    |
        0 <= i < entries.len() && (#[trigger] records[i]).name == name by {
        assert(has_name(entries, name));
        let i = choose|i: int| 0 <= i < entries.len() && #[trigger] entries[i].0 == name;
        assert(records[i].name == name);
    }
    assert forall|i: int, j: int| 0 <= i < j < entries.len() implies (#[trigger] records[i]).name
        != (#[trigger] records[j]).name by {
        assert(entries[i].0 != entries[j].0);
    }
}

} // verus!
