//! Merging what the domains sampled in one cycle into a single snapshot.

use crate::values::{distinct_names, lemma_upsert_all, to_map, upsert_all, Values};
use vstd::prelude::*;

verus! {

/// What to do when a domain fails to give its samples.
#[derive(Debug, Clone, Copy, PartialEq, Eq, Structural)]
pub enum FailurePolicy {
    /// One failed domain fails the whole cycle.
    Baseline,
    /// A failed domain is left out of the cycle's snapshot.
    Hardened,
}

/// Why a cycle gave no snapshot.
#[derive(Debug, Clone, Copy, PartialEq, Eq, Structural)]
pub enum CycleError {
    /// The domain that arrived at place `domain` failed, and the policy does
    /// not allow leaving it out.
    CollectorFailed { domain: usize },
}

/// What one domain handed in for a cycle.
#[derive(Debug)]
pub enum DomainOutcome {
    Sampled(Values),
    Failed,
}

impl DomainOutcome {
    /// The samples handed in, where the domain did not fail.
    pub open spec fn samples(&self) -> Option<Seq<(Seq<char>, u64)>> {
        match self {
            DomainOutcome::Sampled(values) => Some(values.entries()),
            DomainOutcome::Failed => None,
        }
    }
}

impl View for DomainOutcome {
    type V = Option<Map<Seq<char>, u64>>;

    open spec fn view(&self) -> Option<Map<Seq<char>, u64>> {
        match self {
            DomainOutcome::Sampled(values) => Some(values@),
            DomainOutcome::Failed => None,
        }
    }
}

/// The outcomes of a vector, each by its samples.
pub open spec fn outcomes_samples(v: Seq<DomainOutcome>) -> Seq<Option<Seq<(Seq<char>, u64)>>> {
    Seq::new(v.len(), |i: int| v[i].samples())
}

/// The outcomes of a vector, each by its view.
pub open spec fn outcomes_view(v: Seq<DomainOutcome>) -> Seq<Option<Map<Seq<char>, u64>>> {
    Seq::new(v.len(), |i: int| v[i]@)
}

/// Outcomes given by their samples, each as the mapping of its samples.
pub open spec fn samples_to_maps(outcomes: Seq<Option<Seq<(Seq<char>, u64)>>>) -> Seq<
    Option<Map<Seq<char>, u64>>,
> {
    Seq::new(
        outcomes.len(),
        |i: int|
            match outcomes[i] {
                Some(samples) => Some(to_map(samples)),
                None => None,
            },
    )
}

/// All metrics of one cycle under one timestamp, in seconds since the epoch.
#[derive(Debug)]
pub struct MetricSnapshot {
    pub metrics: Values,
    pub time: u64,
}

/// A `MetricSnapshot` as a mapping and its timestamp.
pub ghost struct SnapshotView {
    pub metrics: Map<Seq<char>, u64>,
    pub time: u64,
}

impl View for MetricSnapshot {
    type V = SnapshotView;

    open spec fn view(&self) -> SnapshotView {
        SnapshotView { metrics: self.metrics@, time: self.time }
    }
}

/// The mappings of the domains that did not fail, in arrival order.
pub open spec fn sampled(outcomes: Seq<Option<Map<Seq<char>, u64>>>) -> Seq<Map<Seq<char>, u64>>
    decreases outcomes.len(),
{
    if outcomes.len() == 0 {
        Seq::empty()
    } else {
        match outcomes.last() {
            Some(part) => sampled(outcomes.drop_last()).push(part),
            None => sampled(outcomes.drop_last()),
        }
    }
}

/// The union of `parts`. Where two of them hold one name, the later one's
/// value counts.
pub open spec fn merge_all(parts: Seq<Map<Seq<char>, u64>>) -> Map<Seq<char>, u64>
    decreases parts.len(),
{
    if parts.len() == 0 {
        Map::empty()
    } else {
        merge_all(parts.drop_last()).union_prefer_right(parts.last())
    }
}

/// The samples of a cycle's snapshot: starting from none, the samples of
/// each domain that did not fail are put in, in arrival order.
pub open spec fn merged_entries(outcomes: Seq<Option<Seq<(Seq<char>, u64)>>>) -> Seq<
    (Seq<char>, u64),
>
    decreases outcomes.len(),
{
    if outcomes.len() == 0 {
        Seq::empty()
    } else {
        match outcomes.last() {
            Some(samples) => upsert_all(merged_entries(outcomes.drop_last()), samples),
            None => merged_entries(outcomes.drop_last()),
        }
    }
}

/// No two of `parts` hold the same name.
pub open spec fn non_colliding(parts: Seq<Map<Seq<char>, u64>>) -> bool {
    forall|i: int, j: int, name: Seq<char>|
        0 <= i < j < parts.len() && #[trigger] parts[i].contains_key(name) ==> !(
        #[trigger] parts[j].contains_key(name))
}

/// For each outcome, whether it is a failure.
pub open spec fn failures<T>(outcomes: Seq<Option<T>>) -> Seq<bool> {
    Seq::new(outcomes.len(), |i: int| outcomes[i] is None)
}

/// Some domain before place `end` failed.
pub open spec fn fails_before(failed: Seq<bool>, end: int) -> bool {
    exists|i: int| 0 <= i < end && i < failed.len() && #[trigger] failed[i]
}

/// The place of the first domain that failed, where one did.
pub open spec fn first_failure(failed: Seq<bool>) -> int {
    choose|i: int| 0 <= i < failed.len() && #[trigger] failed[i] && !fails_before(failed, i)
}

/// The error that ends a cycle: under `Baseline` the first failure, under
/// `Hardened` none.
pub open spec fn cycle_error(failed: Seq<bool>, policy: FailurePolicy) -> Option<CycleError> {
    if policy == FailurePolicy::Baseline && fails_before(failed, failed.len() as int) {
        Some(CycleError::CollectorFailed { domain: first_failure(failed) as usize })
    } else {
        None
    }
}

/// The snapshot that `outcomes` give at time `now`: the union of what was
/// sampled, unless a domain failed and `policy` is `Baseline`.
pub open spec fn cycle_snapshot(
    outcomes: Seq<Option<Map<Seq<char>, u64>>>,
    policy: FailurePolicy,
    now: u64,
) -> Result<SnapshotView, CycleError> {
    match cycle_error(failures(outcomes), policy) {
        Some(error) => Err(error),
        None => Ok(SnapshotView { metrics: merge_all(sampled(outcomes)), time: now }),
    }
}

/// Whether `result` is the outcome `expected`, the snapshot taken by view.
pub open spec fn snapshot_result_is(
    result: Result<MetricSnapshot, CycleError>,
    expected: Result<SnapshotView, CycleError>,
) -> bool {
    match result {
        Ok(snapshot) => expected == Ok::<SnapshotView, CycleError>(snapshot@),
        Err(error) => expected == Err::<SnapshotView, CycleError>(error),
    }
}

/// The place of the first failed domain, if any failed.
fn find_failure(outcomes: &Vec<DomainOutcome>) -> (found: Option<usize>)
    ensures
        match found {
            Some(i) => fails_before(failures(outcomes_view(outcomes@)), outcomes@.len() as int)
                && first_failure(failures(outcomes_view(outcomes@))) == i,
            None => !fails_before(failures(outcomes_view(outcomes@)), outcomes@.len() as int),
        },
{
    let ghost failed = failures(outcomes_view(outcomes@));
    let mut i: usize = 0;
    while i < outcomes.len()
        invariant
            i <= outcomes.len(),
            failed == failures(outcomes_view(outcomes@)),
            !fails_before(failed, i as int),
        decreases outcomes.len() - i,
    {
        match &outcomes[i] {
            DomainOutcome::Failed => {
                proof {
                    assert(failed[i as int]);
                    let k = first_failure(failed);
                    if k < i {
                        assert(fails_before(failed, i as int));
                    } else if k > i {
                        assert(fails_before(failed, k));
                    }
                }
                return Some(i);
            },
            DomainOutcome::Sampled(_) => {},
        }
        i += 1;
    }
    None
}

/// Merges the outcomes of one cycle, in the order in which they arrived,
/// into the cycle's snapshot and stamps it with `now`. Under `Hardened` a
/// failed domain is left out; under `Baseline` the first failure is the
/// result.
pub fn aggregate(outcomes: &Vec<DomainOutcome>, policy: FailurePolicy, now: u64) -> (result:
    Result<MetricSnapshot, CycleError>)
    ensures
        snapshot_result_is(result, cycle_snapshot(outcomes_view(outcomes@), policy, now)),
        result matches Ok(snapshot) ==> snapshot.metrics.entries() == merged_entries(
            outcomes_samples(outcomes@),
        ),
{
    match policy {
        FailurePolicy::Baseline => {
            if let Some(domain) = find_failure(outcomes) {
                return Err(CycleError::CollectorFailed { domain });
            }
        },
        FailurePolicy::Hardened => {},
    }
    let ghost view = outcomes_view(outcomes@);
    let ghost samples = outcomes_samples(outcomes@);
    let mut metrics = Values::new();
    let mut i: usize = 0;
    while i < outcomes.len()
        invariant
            i <= outcomes.len(),
            view == outcomes_view(outcomes@),
            samples == outcomes_samples(outcomes@),
            metrics@ == merge_all(sampled(view.take(i as int))),
            metrics.entries() == merged_entries(samples.take(i as int)),
        decreases outcomes.len() - i,
    {
        proof {
            assert(view.take(i + 1).drop_last() =~= view.take(i as int));
            assert(view.take(i + 1).last() == outcomes@[i as int]@);
            assert(samples.take(i + 1).drop_last() =~= samples.take(i as int));
            assert(samples.take(i + 1).last() == outcomes@[i as int].samples());
            let parts = sampled(view.take(i as int));
            if let Some(part) = view[i as int] {
                assert(parts.push(part).drop_last() =~= parts);
            }
        }
        match &outcomes[i] {
            DomainOutcome::Sampled(values) => {
                metrics.extend_from(values);
            },
            DomainOutcome::Failed => {},
        }
        i += 1;
    }
    assert(view.take(i as int) =~= view);
    assert(samples.take(i as int) =~= samples);
    Ok(MetricSnapshot { metrics, time: now })
}

/// The samples of a snapshot hold no name twice, and their mapping is the
/// union of the mappings that the domains sampled.
pub proof fn lemma_merged_entries(outcomes: Seq<Option<Seq<(Seq<char>, u64)>>>)
    ensures
        distinct_names(merged_entries(outcomes)),
        to_map(merged_entries(outcomes)) == merge_all(sampled(samples_to_maps(outcomes))),
    decreases outcomes.len(),
{
    let maps = samples_to_maps(outcomes);
    if outcomes.len() > 0 {
        let head = outcomes.drop_last();
        lemma_merged_entries(head);
        assert(maps.drop_last() =~= samples_to_maps(head));
        match outcomes.last() {
            Some(samples) => {
                lemma_upsert_all(merged_entries(head), samples);
                let parts = sampled(samples_to_maps(head));
                assert(maps.last() == Some(to_map(samples)));
                assert(parts.push(to_map(samples)).drop_last() =~= parts);
            },
            None => {
                assert(maps.last() is None);
            },
        }
    }
}

/// Where a domain failed, `first_failure` names one that failed and before
/// which none did.
pub proof fn lemma_first_failure(failed: Seq<bool>, end: int)
    requires
        fails_before(failed, end),
    ensures
        0 <= first_failure(failed) < failed.len(),
        first_failure(failed) < end,
        failed[first_failure(failed)],
        !fails_before(failed, first_failure(failed)),
    decreases end,
{
    let witness = choose|i: int| 0 <= i < end && i < failed.len() && #[trigger] failed[i];
    if fails_before(failed, witness) {
        lemma_first_failure(failed, witness);
    } else {
        let first = first_failure(failed);
        assert(0 <= first < failed.len() && failed[first] && !fails_before(failed, first));
        if first >= end {
            assert(fails_before(failed, first));
        }
    }
}

/// The part at place `i` holds a value under `name`.
pub open spec fn gives(parts: Seq<Map<Seq<char>, u64>>, i: int, name: Seq<char>) -> bool {
    0 <= i < parts.len() && parts[i].contains_key(name)
}

/// The union of `parts` holds exactly the names that some part holds, each
/// with a value that a part gives it; where no two parts share a name, every
/// part's values are in it unchanged.
pub proof fn lemma_merge_all(parts: Seq<Map<Seq<char>, u64>>)
    ensures
        forall|name: Seq<char>| #[trigger]
            merge_all(parts).contains_key(name) <==> exists|i: int| gives(parts, i, name),
        forall|name: Seq<char>| #[trigger]
            merge_all(parts).contains_key(name) ==> exists|i: int| #[trigger]
                gives(parts, i, name) && merge_all(parts)[name] == parts[i][name],
        non_colliding(parts) ==> forall|i: int, name: Seq<char>| #[trigger]
            gives(parts, i, name) ==> merge_all(parts)[name] == parts[i][name],
    decreases parts.len(),
{
    if parts.len() > 0 {
        let head = parts.drop_last();
        let last = parts.last();
        let n = parts.len() - 1;
        lemma_merge_all(head);
        assert forall|name: Seq<char>| #[trigger] merge_all(parts).contains_key(name) implies (
        exists|i: int| #[trigger] gives(parts, i, name) && merge_all(parts)[name]
            == parts[i][name]) by {
            if last.contains_key(name) {
                assert(gives(parts, n, name));
            } else {
                let i = choose|i: int| #[trigger]
                    gives(head, i, name) && merge_all(head)[name] == head[i][name];
                assert(gives(parts, i, name));
            }
        }
        assert forall|name: Seq<char>| (exists|i: int| gives(parts, i, name)) implies #[trigger]
            merge_all(parts).contains_key(name) by {
            let i = choose|i: int| gives(parts, i, name);
            if i < n {
                assert(gives(head, i, name));
                assert(merge_all(head).contains_key(name));
            } else {
                assert(last.contains_key(name));
            }
        }
        if non_colliding(parts) {
            assert(non_colliding(head)) by {
                assert forall|i: int, j: int, name: Seq<char>|
                    0 <= i < j < head.len() && #[trigger] head[i].contains_key(name) implies !(
                    #[trigger] head[j].contains_key(name)) by {
                    assert(parts[i].contains_key(name));
                    if head[j].contains_key(name) {
                        assert(parts[j].contains_key(name));
                    }
                }
            }
            assert forall|i: int, name: Seq<char>| #[trigger] gives(parts, i, name) implies merge_all(
                parts,
            )[name] == parts[i][name] by {
                if i < n {
                    assert(gives(head, i, name));
                    assert(parts[i].contains_key(name));
                    assert(!parts[n].contains_key(name));
                }
            }
        }
    }
}

/// Merging does not depend on the order of arrival: two sequences of parts
/// that are rearrangements of each other, with no name shared between two
/// parts, have the same union.
pub proof fn lemma_merge_order_independent(
    a: Seq<Map<Seq<char>, u64>>,
    b: Seq<Map<Seq<char>, u64>>,
)
    requires
        non_colliding(a),
        a.to_multiset() == b.to_multiset(),
    ensures
        merge_all(a) == merge_all(b),
{
    broadcast use vstd::seq_lib::group_to_multiset_ensures;

    lemma_merge_all(a);
    lemma_merge_all(b);
    assert forall|name: Seq<char>| merge_all(a).contains_key(name) implies merge_all(
        b,
    ).contains_key(name) by {
        let i = choose|i: int| gives(a, i, name);
        assert(a.contains(a[i]));
        assert(b.to_multiset().count(a[i]) > 0);
        assert(b.contains(a[i]));
        let j = choose|j: int| 0 <= j < b.len() && b[j] == a[i];
        assert(gives(b, j, name));
    }
    assert forall|name: Seq<char>| merge_all(b).contains_key(name) implies merge_all(
        a,
    ).contains_key(name) && merge_all(a)[name] == merge_all(b)[name] by {
        let j = choose|j: int| #[trigger]
            gives(b, j, name) && merge_all(b)[name] == b[j][name];
        assert(b.contains(b[j]));
        assert(a.to_multiset().count(b[j]) > 0);
        assert(a.contains(b[j]));
        let i = choose|i: int| 0 <= i < a.len() && a[i] == b[j];
        assert(gives(a, i, name));
    }
    assert(merge_all(a) =~= merge_all(b));
}

/// The parts sampled hold a mapping as often as the outcomes hold it as a
/// domain's samples.
proof fn lemma_sampled_count(
    outcomes: Seq<Option<Map<Seq<char>, u64>>>,
    part: Map<Seq<char>, u64>,
)
    ensures
        sampled(outcomes).to_multiset().count(part) == outcomes.to_multiset().count(Some(part)),
    decreases outcomes.len(),
{
    broadcast use vstd::seq_lib::group_to_multiset_ensures;

    if outcomes.len() == 0 {
        assert(outcomes.to_multiset().len() == 0);
        assert(sampled(outcomes).to_multiset().len() == 0);
    } else {
        let head = outcomes.drop_last();
        lemma_sampled_count(head, part);
        assert(outcomes =~= head.push(outcomes.last()));
        assert(outcomes.to_multiset() =~= head.to_multiset().insert(outcomes.last()));
    }
}

/// The snapshot does not depend on the order of arrival: two runs of
/// outcomes that are rearrangements of each other, with no name shared
/// between two domains, give a snapshot under the same policies, and then the
/// same one.
pub proof fn lemma_snapshot_order_independent(
    a: Seq<Option<Map<Seq<char>, u64>>>,
    b: Seq<Option<Map<Seq<char>, u64>>>,
    policy: FailurePolicy,
    now: u64,
)
    requires
        non_colliding(sampled(a)),
        a.to_multiset() == b.to_multiset(),
    ensures
        merge_all(sampled(a)) == merge_all(sampled(b)),
        cycle_snapshot(a, policy, now) is Ok <==> cycle_snapshot(b, policy, now) is Ok,
        cycle_snapshot(a, policy, now) is Ok ==> cycle_snapshot(a, policy, now) == cycle_snapshot(
            b,
            policy,
            now,
        ),
{
    broadcast use vstd::seq_lib::group_to_multiset_ensures;

    assert forall|part: Map<Seq<char>, u64>|
        sampled(a).to_multiset().count(part) == sampled(b).to_multiset().count(part) by {
        lemma_sampled_count(a, part);
        lemma_sampled_count(b, part);
    }
    assert(sampled(a).to_multiset() =~= sampled(b).to_multiset());
    lemma_merge_order_independent(sampled(a), sampled(b));
    let none = None::<Map<Seq<char>, u64>>;
    if fails_before(failures(a), a.len() as int) {
        let i = choose|i: int| 0 <= i < a.len() && i < failures(a).len() && #[trigger] failures(a)[i];
        assert(a[i] == none);
        assert(a.contains(none));
        assert(b.to_multiset().count(none) > 0);
        assert(b.contains(none));
        let j = choose|j: int| 0 <= j < b.len() && b[j] == none;
        assert(failures(b)[j]);
    }
    if fails_before(failures(b), b.len() as int) {
        let j = choose|j: int| 0 <= j < b.len() && j < failures(b).len() && #[trigger] failures(b)[j];
        assert(b[j] == none);
        assert(b.contains(none));
        assert(a.to_multiset().count(none) > 0);
        assert(a.contains(none));
        let i = choose|i: int| 0 <= i < a.len() && a[i] == none;
        assert(failures(a)[i]);
    }
}

/// Merging is associative: the union of two runs of parts, one after the
/// other, is the union of the first run overlaid with the union of the
/// second.
pub proof fn lemma_merge_concat(a: Seq<Map<Seq<char>, u64>>, b: Seq<Map<Seq<char>, u64>>)
    ensures
        merge_all(a + b) == merge_all(a).union_prefer_right(merge_all(b)),
    decreases b.len(),
{
    if b.len() == 0 {
        assert(a + b =~= a);
        assert(merge_all(a) =~= merge_all(a).union_prefer_right(merge_all(b)));
    } else {
        assert((a + b).drop_last() =~= a + b.drop_last());
        lemma_merge_concat(a, b.drop_last());
        assert(merge_all(a + b) =~= merge_all(a).union_prefer_right(merge_all(b)));
    }
}

/// Two mappings that share no name merge to the same union in either order.
pub proof fn lemma_union_commutes(a: Map<Seq<char>, u64>, b: Map<Seq<char>, u64>)
    requires
        a.dom().disjoint(b.dom()),
    ensures
        a.union_prefer_right(b) == b.union_prefer_right(a),
{
    assert(a.union_prefer_right(b) =~= b.union_prefer_right(a));
}

/// A failed domain adds nothing: the parts sampled are those of the other
/// domains, so under `Hardened` the snapshot is the one that the other
/// domains alone would have given.
pub proof fn lemma_failure_left_out(
    outcomes: Seq<Option<Map<Seq<char>, u64>>>,
    failed: int,
    now: u64,
)
    requires
        0 <= failed < outcomes.len(),
        outcomes[failed] is None,
    ensures
        sampled(outcomes) == sampled(outcomes.remove(failed)),
        cycle_snapshot(outcomes, FailurePolicy::Hardened, now) == cycle_snapshot(
            outcomes.remove(failed),
            FailurePolicy::Hardened,
            now,
        ),
    decreases outcomes.len(),
{
    if failed == outcomes.len() - 1 {
        assert(outcomes.remove(failed) =~= outcomes.drop_last());
    } else {
        let rest = outcomes.remove(failed);
        assert(rest.drop_last() =~= outcomes.drop_last().remove(failed));
        assert(rest.last() == outcomes.last());
        lemma_failure_left_out(outcomes.drop_last(), failed, now);
    }
}

/// Under `Hardened` every cycle gives a snapshot, stamped once, that holds
/// every name that a domain which did not fail sampled. Where no two domains
/// share a name, it holds what each such domain sampled, unchanged.
pub proof fn lemma_hardened_keeps_sampled(
    outcomes: Seq<Option<Map<Seq<char>, u64>>>,
    now: u64,
    domain: int,
)
    requires
        0 <= domain < outcomes.len(),
        outcomes[domain] is Some,
    ensures
        cycle_snapshot(outcomes, FailurePolicy::Hardened, now) is Ok,
        cycle_snapshot(outcomes, FailurePolicy::Hardened, now)->Ok_0.time == now,
        forall|name: Seq<char>| #[trigger]
            outcomes[domain]->Some_0.contains_key(name) ==> cycle_snapshot(
                outcomes,
                FailurePolicy::Hardened,
                now,
            )->Ok_0.metrics.contains_key(name),
        non_colliding(sampled(outcomes)) ==> outcomes[domain]->Some_0.submap_of(
            cycle_snapshot(outcomes, FailurePolicy::Hardened, now)->Ok_0.metrics,
        ),
{
    let part = outcomes[domain]->Some_0;
    let merged = merge_all(sampled(outcomes));
    lemma_sampled_holds(outcomes, domain);
    let j = choose|j: int| 0 <= j < sampled(outcomes).len() && sampled(outcomes)[j] == part;
    lemma_merge_all(sampled(outcomes));
    assert forall|name: Seq<char>| #[trigger] part.contains_key(name) implies merged.contains_key(
        name,
    ) by {
        assert(gives(sampled(outcomes), j, name));
    }
    if non_colliding(sampled(outcomes)) {
        assert forall|name: Seq<char>| #[trigger] part.dom().contains(name) implies #[trigger] merged.dom().contains(
        name) && part[name] == merged[name] by {
            assert(gives(sampled(outcomes), j, name));
        }
    }
}

/// What a domain sampled is one of the parts sampled.
proof fn lemma_sampled_holds(outcomes: Seq<Option<Map<Seq<char>, u64>>>, domain: int)
    requires
        0 <= domain < outcomes.len(),
        outcomes[domain] is Some,
    ensures
        exists|j: int|
            0 <= j < sampled(outcomes).len() && sampled(outcomes)[j] == outcomes[domain]->Some_0,
    decreases outcomes.len(),
{
    let head = sampled(outcomes.drop_last());
    if domain == outcomes.len() - 1 {
        assert(sampled(outcomes)[head.len() as int] == outcomes[domain]->Some_0);
    } else {
        lemma_sampled_holds(outcomes.drop_last(), domain);
        let j = choose|j: int| 0 <= j < head.len() && head[j] == outcomes[domain]->Some_0;
        assert(sampled(outcomes)[j] == head[j]);
    }
}

} // verus!
