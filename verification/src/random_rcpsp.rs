//! Random instances for benchmarks: activities laid out on a grid of time
//! intervals and rows of resource units, joined by arcs drawn at random so
//! that the layout stays a schedule of the instance.

use vstd::prelude::*;
use rand::rngs::StdRng;
use crate::activity::{activities_view, clone_supplies, contains_id, usages_view, Activity};
use crate::error::ScheduleError;
use crate::model::{
    all_known, arcs_known, arcs_mirrored, declared, distinct_ids, finish, has_dummies, has_id,
    is_dummy, lemma_position_distinct, names_predecessor, names_successor, position, respects,
    schema, supplies_fit, usage_of, ActivityView, ProjectView, ResourceView, UsageView,
};
use crate::project::{resources_view, Project};
use crate::rn_resource::RnResource;
use crate::rn_resource_usage::RnResourceUsage;
use crate::rng::{draw_between, draw_number, seeded};
use crate::text::{decimal, decimal_string};

verus! {

/// The `k`-th triangular number: 1 + 2 + ... + `k`.
pub open spec fn triangular(k: int) -> int
    decreases k,
{
    if k <= 0 {
        0
    } else {
        triangular(k - 1) + k
    }
}

/// The time intervals for a schedule of length `cost` with `activities`
/// activities: the ends and the lengths of the intervals. The intervals
/// last 1, 2, 3, ... and so end at the triangular numbers; the last one
/// ends at `cost` whatever its length, and there are no more intervals than
/// activities.
pub open spec fn time_grid(cost: int, activities: int, ends: Seq<u32>, lengths: Seq<u32>) -> bool {
    let n = ends.len() as int;
    &&& lengths.len() == n
    &&& 1 <= n <= activities
    &&& forall|j: int| 0 <= j < n - 1 ==> #[trigger] ends[j] == triangular(j + 1)
    &&& forall|j: int| 0 <= j < n - 1 ==> #[trigger] lengths[j] == j + 1
    &&& ends[n - 1] == cost
    &&& if triangular(activities) < cost {
        n == activities && lengths[n - 1] == cost - triangular(activities)
    } else {
        triangular(n - 1) < cost <= triangular(n) && lengths[n - 1] == cost - triangular(n - 1)
    }
}

proof fn lemma_triangular_grows(a: int, b: int)
    requires
        0 <= a <= b,
    ensures
        0 <= triangular(a) <= triangular(b),
        a <= triangular(a),
    decreases b,
{
    if a < b {
        lemma_triangular_grows(a, b - 1);
    } else if a > 0 {
        lemma_triangular_grows(a - 1, a - 1);
    }
}

/// The time intervals of the grid, their ends and their lengths.
pub fn get_intervals_time(random_cost: u32, random_activities: u32) -> (r: (Vec<u32>, Vec<u32>))
    requires
        random_cost >= 1,
        random_activities >= 1,
    ensures
        time_grid(random_cost as int, random_activities as int, r.0@, r.1@),
{
    let cost: u64 = random_cost as u64;
    let mut intervals: Vec<u32> = Vec::new();
    let mut duration: Vec<u32> = Vec::new();
    let mut duration_interval: u64 = 1;
    let mut i: u64 = 1;
    proof {
        assert(triangular(1) == triangular(0) + 1);
        lemma_triangular_grows(0, random_activities as int);
    }
    while duration_interval <= cost && i <= random_activities as u64
        invariant
            1 <= i <= random_activities + 1,
            cost == random_cost,
            duration_interval == triangular(i as int),
            triangular(i - 1) <= cost,
            intervals@.len() == i - 1,
            duration@.len() == i - 1,
            forall|j: int| 0 <= j < i - 1 ==> #[trigger] intervals@[j] == triangular(j + 1),
            forall|j: int| 0 <= j < i - 1 ==> #[trigger] duration@[j] == j + 1,
        decreases random_activities + 1 - i,
    {
        intervals.push(duration_interval as u32);
        duration.push(i as u32);
        i += 1;
        assert(triangular(i as int) == triangular(i - 1) + i);
        duration_interval += i;
    }
    let full: usize = intervals.len();
    if i > random_activities as u64 {
        // as many intervals as activities: the last one is made to end at the cost
        let reached: u32 = intervals[full - 1];
        assert(reached == triangular(random_activities as int));
        if reached != random_cost {
            let diff: u32 = random_cost - reached;
            duration.pop();
            duration.push(diff);
            intervals.pop();
            intervals.push(random_cost);
        } else {
            assert(triangular(random_activities - 1) < triangular(random_activities as int)) by {
                assert(triangular(random_activities as int) == triangular(random_activities - 1)
                    + random_activities);
            }
        }
    } else {
        // the cost lies before the end of the next interval
        proof {
            lemma_triangular_grows(i as int, random_activities as int);
        }
        if full == 0 || intervals[full - 1] != random_cost {
            let reached: u32 = if full == 0 {
                0
            } else {
                intervals[full - 1]
            };
            let diff: u32 = random_cost - reached;
            duration.push(diff);
            intervals.push(random_cost);
        } else {
            assert(triangular(i - 1) == triangular(i - 2) + (i - 1));
        }
    }
    (intervals, duration)
}

/// The resource intervals for `activities` activities over `columns`
/// columns and `capacity` units: there is one row more than the columns
/// fill with the activities, every row is as high as the capacity divided
/// among the rows, the last taking the remainder too, and the rows end one
/// above the other, the last at `capacity`.
pub open spec fn unit_grid(
    columns: int,
    activities: int,
    capacity: int,
    ends: Seq<u32>,
    heights: Seq<u32>,
) -> bool {
    let rows = activities / columns + 1;
    let share = capacity / rows;
    &&& ends.len() == rows
    &&& heights.len() == rows
    &&& forall|k: int| 0 <= k < rows - 1 ==> #[trigger] ends[k] == (k + 1) * share
    &&& forall|k: int| 0 <= k < rows - 1 ==> #[trigger] heights[k] == share
    &&& ends[rows - 1] == capacity
    &&& heights[rows - 1] == share + capacity % rows
}

/// The resource intervals of the grid, their ends and their heights.
pub fn get_intervals_resource(
    columns: u32,
    random_activities: u32,
    random_resources_max_capacity: u32,
) -> (r: (Vec<u32>, Vec<u32>))
    requires
        columns >= 1,
        random_activities / columns < u32::MAX,
    ensures
        unit_grid(
            columns as int,
            random_activities as int,
            random_resources_max_capacity as int,
            r.0@,
            r.1@,
        ),
{
    let rows: u32 = random_activities / columns + 1;
    let share: u32 = random_resources_max_capacity / rows;
    let rest: u32 = random_resources_max_capacity % rows;
    let mut intervals_resource: Vec<u32> = Vec::new();
    let mut duration_intervals_resource: Vec<u32> = Vec::new();
    let mut interval: u64 = share as u64;
    let mut k: u32 = 1;
    assert(share * rows + rest == random_resources_max_capacity) by (nonlinear_arith)
        requires
            share == random_resources_max_capacity / rows,
            rest == random_resources_max_capacity % rows,
            rows > 0,
    ;
    assert(1 * share == share) by (nonlinear_arith);
    while k < rows
        invariant
            1 <= k <= rows,
            share == random_resources_max_capacity / rows,
            share * rows + rest == random_resources_max_capacity,
            interval == k * share,
            intervals_resource@.len() == k - 1,
            duration_intervals_resource@.len() == k - 1,
            forall|j: int|
                0 <= j < k - 1 ==> #[trigger] intervals_resource@[j] == (j + 1) * share,
            forall|j: int| 0 <= j < k - 1 ==> #[trigger] duration_intervals_resource@[j] == share,
        decreases rows - k,
    {
        assert(k * share <= rows * share && (k + 1) * share == k * share + share && rows * share
            == share * rows) by (nonlinear_arith)
            requires
                k < rows,
        ;
        intervals_resource.push(interval as u32);
        duration_intervals_resource.push(share);
        interval += share as u64;
        k += 1;
    }
    assert(rows * share == share * rows && share <= share * rows) by (nonlinear_arith)
        requires
            rows >= 1,
    ;
    intervals_resource.push(random_resources_max_capacity);
    duration_intervals_resource.push(share + rest);
    (intervals_resource, duration_intervals_resource)
}

/// The resources of an instance: they are numbered from 1, each has its
/// share of `capacity`, and the last has the remainder too.
pub open spec fn shared_out(resources: Seq<ResourceView>, count: int, capacity: int) -> bool {
    &&& resources.len() == count
    &&& forall|i: int|
        0 <= i < count ==> {
            &&& (#[trigger] resources[i]).id == i + 1
            &&& resources[i].name == decimal((i + 1) as nat)
            &&& resources[i].capacity == if i == count - 1 {
                capacity / count + capacity % count
            } else {
                capacity / count
            }
        }
}

/// Shares `capacity` units out among `count` resources.
pub fn share_out(count: u32, capacity: u32) -> (r: Vec<RnResource>)
    requires
        count >= 1,
    ensures
        shared_out(resources_view(r@), count as int, capacity as int),
{
    let share: u32 = capacity / count;
    let rest: u32 = capacity % count;
    assert(share * count + rest == capacity && share <= share * count) by (nonlinear_arith)
        requires
            share == capacity / count,
            rest == capacity % count,
            count >= 1,
    ;
    let mut resources: Vec<RnResource> = Vec::new();
    let mut i: u32 = 1;
    while i < count
        invariant
            1 <= i <= count,
            resources@.len() == i - 1,
            forall|j: int|
                0 <= j < i - 1 ==> {
                    &&& (#[trigger] resources@[j]).id == j + 1
                    &&& resources@[j].name@ == decimal((j + 1) as nat)
                    &&& resources@[j].capacity == share
                },
        decreases count - i,
    {
        resources.push(RnResource::new(i, decimal_string(i as u64), share));
        i += 1;
    }
    resources.push(RnResource::new(count, decimal_string(count as u64), share + rest));
    resources
}

/// The usage records name resources in rising order of identity, each a
/// resource of `resources` at the place before its identity, and none takes
/// more than `remaining` holds of it.
pub open spec fn drawn_from(
    supplies: Seq<UsageView>,
    resources: Seq<ResourceView>,
    remaining: Seq<u32>,
) -> bool {
    &&& forall|k: int|
        0 <= k < supplies.len() ==> {
            let s = #[trigger] supplies[k];
            &&& 1 <= s.resource.id <= resources.len()
            &&& s.resource == resources[s.resource.id - 1]
            &&& s.usage <= remaining[s.resource.id - 1]
        }
    &&& forall|k: int, m: int|
        0 <= k < m < supplies.len() ==> (#[trigger] supplies[k]).resource.id < (
        #[trigger] supplies[m]).resource.id
}

proof fn lemma_usage_absent(supplies: Seq<UsageView>, rid: u32)
    requires
        forall|k: int| 0 <= k < supplies.len() ==> (#[trigger] supplies[k]).resource.id != rid,
    ensures
        usage_of(supplies, rid) == 0,
    decreases supplies.len(),
{
    if supplies.len() > 0 {
        let rest = supplies.drop_last();
        assert forall|k: int| 0 <= k < rest.len() implies (#[trigger] rest[k]).resource.id
            != rid by {
            assert(rest[k] == supplies[k]);
        }
        lemma_usage_absent(rest, rid);
        assert(supplies.last() == supplies[supplies.len() - 1]);
    }
}

/// Of records in rising order each is alone with its resource.
proof fn lemma_usage_single(supplies: Seq<UsageView>, k: int)
    requires
        0 <= k < supplies.len(),
        forall|a: int, b: int|
            0 <= a < b < supplies.len() ==> (#[trigger] supplies[a]).resource.id < (
            #[trigger] supplies[b]).resource.id,
    ensures
        usage_of(supplies, supplies[k].resource.id) == supplies[k].usage,
    decreases supplies.len(),
{
    let rest = supplies.drop_last();
    let rid = supplies[k].resource.id;
    assert(supplies.last() == supplies[supplies.len() - 1]);
    if k == supplies.len() - 1 {
        assert forall|a: int| 0 <= a < rest.len() implies (#[trigger] rest[a]).resource.id
            != rid by {
            assert(rest[a] == supplies[a]);
            assert(supplies[a].resource.id < supplies[k].resource.id);
        }
        lemma_usage_absent(rest, rid);
    } else {
        assert forall|a: int, b: int| 0 <= a < b < rest.len() implies (#[trigger] rest[a]).resource.id
            < (#[trigger] rest[b]).resource.id by {
            assert(rest[a] == supplies[a] && rest[b] == supplies[b]);
        }
        assert(rest[k] == supplies[k]);
        lemma_usage_single(rest, k);
        assert(supplies[k].resource.id < supplies[supplies.len() - 1].resource.id);
    }
}

/// The usage records of a row while the resources are gone through: the
/// records so far, the units that are still missing, and whether the row is
/// covered.
pub struct Share {
    pub supplies: Seq<UsageView>,
    pub missing: int,
    pub covered: bool,
}

/// The usage records of a row that is `demand` units high after the first
/// `i` resources have been gone through. Until the row is covered, every
/// resource that is not spent gives what it has left, or what is still
/// missing where that is less; the row is covered once nothing is missing.
pub open spec fn shared(
    resources: Seq<ResourceView>,
    remaining: Seq<u32>,
    spent: Seq<bool>,
    demand: int,
    i: int,
) -> Share
    decreases i,
{
    if i <= 0 {
        Share { supplies: Seq::empty(), missing: demand, covered: false }
    } else {
        let before = shared(resources, remaining, spent, demand, i - 1);
        if before.covered || spent[i - 1] {
            before
        } else {
            let using = if remaining[i - 1] >= before.missing {
                before.missing
            } else {
                remaining[i - 1] as int
            };
            Share {
                supplies: before.supplies.push(
                    UsageView { resource: resources[i - 1], usage: using as u32 },
                ),
                missing: before.missing - using,
                covered: before.missing - using == 0,
            }
        }
    }
}

/// Once the row is covered the other resources give nothing.
proof fn lemma_shared_rests(
    resources: Seq<ResourceView>,
    remaining: Seq<u32>,
    spent: Seq<bool>,
    demand: int,
    i: int,
    j: int,
)
    requires
        0 <= i <= j,
        shared(resources, remaining, spent, demand, i).covered,
    ensures
        shared(resources, remaining, spent, demand, j) == shared(
            resources,
            remaining,
            spent,
            demand,
            i,
        ),
    decreases j - i,
{
    if i < j {
        lemma_shared_rests(resources, remaining, spent, demand, i, j - 1);
    }
}

/// The usage records of the activities of a row that is `demand` units
/// high: the resources that are not spent are taken in their order until
/// what they have left covers the row, and each gives what it has left,
/// the last of them what is still missing.
fn row_supplies(
    resources: &Vec<RnResource>,
    remaining: &Vec<u32>,
    spent: &Vec<bool>,
    demand: u32,
) -> (r: Vec<RnResourceUsage>)
    requires
        remaining@.len() == resources@.len(),
        spent@.len() == resources@.len(),
        forall|i: int| 0 <= i < resources@.len() ==> (#[trigger] resources@[i]).id == i + 1,
    ensures
        usages_view(r@) == shared(
            resources_view(resources@),
            remaining@,
            spent@,
            demand as int,
            resources@.len() as int,
        ).supplies,
        drawn_from(usages_view(r@), resources_view(resources@), remaining@),
{
    let ghost view = resources_view(resources@);
    let mut supplies: Vec<RnResourceUsage> = Vec::new();
    let mut missing: u32 = demand;
    let mut covered: bool = false;
    let mut i: usize = 0;
    assert(usages_view(supplies@) =~= Seq::empty());
    while i < resources.len() && !covered
        invariant
            i <= resources@.len(),
            remaining@.len() == resources@.len(),
            spent@.len() == resources@.len(),
            view == resources_view(resources@),
            forall|j: int| 0 <= j < resources@.len() ==> (#[trigger] resources@[j]).id == j + 1,
            shared(view, remaining@, spent@, demand as int, i as int) == (Share {
                supplies: usages_view(supplies@),
                missing: missing as int,
                covered,
            }),
            drawn_from(usages_view(supplies@), view, remaining@),
            forall|k: int|
                0 <= k < supplies@.len() ==> (#[trigger] usages_view(supplies@)[k]).resource.id
                    <= i,
        decreases resources@.len() - i,
    {
        if !spent[i] {
            let left: u32 = remaining[i];
            let using: u32 = if left >= missing {
                missing
            } else {
                left
            };
            missing = missing - using;
            let ghost before = usages_view(supplies@);
            supplies.push(RnResourceUsage::new(resources[i].clone(), using));
            proof {
                let now = usages_view(supplies@);
                assert(now.len() == before.len() + 1);
                assert(now[before.len() as int].resource == view[i as int]);
                assert(now =~= before.push(UsageView { resource: view[i as int], usage: using }));
                assert forall|k: int| 0 <= k < now.len() implies {
                    let s = #[trigger] now[k];
                    &&& 1 <= s.resource.id <= view.len()
                    &&& s.resource == view[s.resource.id - 1]
                    &&& s.usage <= remaining@[s.resource.id - 1]
                    &&& s.resource.id <= i + 1
                } by {
                    if k < before.len() {
                        assert(now[k] == before[k]);
                    }
                }
                assert forall|k: int, m: int| 0 <= k < m < now.len() implies (
                #[trigger] now[k]).resource.id < (#[trigger] now[m]).resource.id by {
                    assert(now[k] == before[k]);
                    if m < before.len() {
                        assert(now[m] == before[m]);
                    }
                }
            }
            covered = missing == 0;
        }
        i += 1;
    }
    proof {
        if covered {
            lemma_shared_rests(
                view,
                remaining@,
                spent@,
                demand as int,
                i as int,
                resources@.len() as int,
            );
        }
    }
    supplies
}

/// What is left of the resources while the units of a row are taken from
/// them: what each has left, which are spent, the units that are still
/// missing, and whether the taking is done.
pub struct Stock {
    pub remaining: Seq<u32>,
    pub spent: Seq<bool>,
    pub missing: int,
    pub done: bool,
}

/// What is left of the resources after the `demand` units of a row have
/// been asked of the first `k` resources that `supplies` names. Until the
/// taking is done, a resource that has no more than is still missing gives
/// all it has and is spent, and the taking is done once nothing is missing;
/// a resource that has more gives what is missing, and the taking is done.
pub open spec fn consumed(
    remaining: Seq<u32>,
    spent: Seq<bool>,
    supplies: Seq<UsageView>,
    demand: int,
    k: int,
) -> Stock
    decreases k,
{
    if k <= 0 {
        Stock { remaining, spent, missing: demand, done: false }
    } else {
        let before = consumed(remaining, spent, supplies, demand, k - 1);
        let at = supplies[k - 1].resource.id - 1;
        let left = before.remaining[at];
        if before.done {
            before
        } else if before.missing >= left {
            Stock {
                remaining: before.remaining.update(at, 0),
                spent: before.spent.update(at, true),
                missing: before.missing - left,
                done: before.missing - left == 0,
            }
        } else {
            Stock {
                remaining: before.remaining.update(at, (left - before.missing) as u32),
                spent: before.spent,
                missing: before.missing,
                done: true,
            }
        }
    }
}

/// Once the taking is done the other resources keep what they have.
proof fn lemma_consumed_rests(
    remaining: Seq<u32>,
    spent: Seq<bool>,
    supplies: Seq<UsageView>,
    demand: int,
    k: int,
    m: int,
)
    requires
        0 <= k <= m,
        consumed(remaining, spent, supplies, demand, k).done,
    ensures
        consumed(remaining, spent, supplies, demand, m) == consumed(
            remaining,
            spent,
            supplies,
            demand,
            k,
        ),
    decreases m - k,
{
    if k < m {
        lemma_consumed_rests(remaining, spent, supplies, demand, k, m - 1);
    }
}

/// Takes the `demand` units of a row from the resources that its usage
/// records name, in their order: a resource that has no more than is still
/// asked for gives all it has and is spent, and the first that has more
/// gives the rest.
fn consume_row(
    remaining: &mut Vec<u32>,
    spent: &mut Vec<bool>,
    supplies: &Vec<RnResourceUsage>,
    demand: u32,
)
    requires
        old(spent)@.len() == old(remaining)@.len(),
        forall|k: int|
            0 <= k < supplies@.len() ==> 1 <= (#[trigger] supplies@[k]).resource.id <= old(
                remaining,
            )@.len(),
    ensures
        final(remaining)@ == consumed(
            old(remaining)@,
            old(spent)@,
            usages_view(supplies@),
            demand as int,
            supplies@.len() as int,
        ).remaining,
        final(spent)@ == consumed(
            old(remaining)@,
            old(spent)@,
            usages_view(supplies@),
            demand as int,
            supplies@.len() as int,
        ).spent,
        final(remaining)@.len() == old(remaining)@.len(),
        final(spent)@.len() == old(spent)@.len(),
        forall|j: int|
            0 <= j < old(remaining)@.len() ==> (#[trigger] final(remaining)@[j]) <= old(
                remaining,
            )@[j],
{
    let ghost asked = usages_view(supplies@);
    let mut missing: u32 = demand;
    let mut done: bool = false;
    let mut k: usize = 0;
    while k < supplies.len() && !done
        invariant
            k <= supplies@.len(),
            asked == usages_view(supplies@),
            remaining@.len() == old(remaining)@.len(),
            spent@.len() == remaining@.len(),
            forall|m: int|
                0 <= m < supplies@.len() ==> 1 <= (#[trigger] supplies@[m]).resource.id
                    <= remaining@.len(),
            forall|j: int|
                0 <= j < remaining@.len() ==> (#[trigger] remaining@[j]) <= old(remaining)@[j],
            consumed(old(remaining)@, old(spent)@, asked, demand as int, k as int) == (Stock {
                remaining: remaining@,
                spent: spent@,
                missing: missing as int,
                done,
            }),
        decreases supplies@.len() - k,
    {
        assert(asked[k as int] == supplies@[k as int]@);
        let at: usize = (supplies[k].resource.id - 1) as usize;
        let left: u32 = remaining[at];
        if missing >= left {
            spent[at] = true;
            remaining[at] = 0;
            missing = missing - left;
            done = missing == 0;
        } else {
            remaining[at] = left - missing;
            done = true;
        }
        k += 1;
    }
    proof {
        if done {
            lemma_consumed_rests(
                old(remaining)@,
                old(spent)@,
                asked,
                demand as int,
                k as int,
                supplies@.len() as int,
            );
        }
    }
}

/// The activity at `i` starts after the one at `i + 1`, or it ends before
/// that one starts.
pub open spec fn steps_on(acts: Seq<ActivityView>, i: int) -> bool {
    acts[i + 1].start_time < acts[i].start_time || (acts[i].start_time < acts[i + 1].start_time
        && finish(acts[i]) <= acts[i + 1].start_time)
}

/// No usage record of `a` asks for more than its resource, a resource of
/// `resources`, has.
pub open spec fn supplied_by(a: ActivityView, resources: Seq<ResourceView>) -> bool {
    forall|k: int|
        0 <= k < a.supplies.len() ==> {
            let s = #[trigger] a.supplies[k];
            declared(resources, s.resource) && usage_of(a.supplies, s.resource.id)
                <= s.resource.capacity
        }
}

/// The activities that lie on the grid so far, row after row and in each
/// row from interval to interval: they are numbered from 2, each starts
/// with its interval and lasts as long, but for the last of all, which lasts
/// until `cost`; none has neighbours yet, and each holds no more of a
/// resource than there is.
pub open spec fn laid_upto(
    acts: Seq<ActivityView>,
    resources: Seq<ResourceView>,
    cost: int,
    count: int,
    ends: Seq<u32>,
    lengths: Seq<u32>,
) -> bool {
    &&& acts.len() <= count
    &&& forall|i: int|
        0 <= i < acts.len() ==> {
            let a = #[trigger] acts[i];
            let column = i % (ends.len() as int);
            &&& a.id == i + 2
            &&& a.parent == -1
            &&& a.name == decimal((i + 2) as nat)
            &&& a.predecessors.len() == 0
            &&& a.successors.len() == 0
            &&& a.start_time == ends[column] - lengths[column]
            &&& a.duration == if i == count - 1 {
                cost - a.start_time
            } else {
                lengths[column] as int
            }
            &&& 0 <= a.start_time
            &&& a.duration >= 1
            &&& a.start_time + a.duration <= cost
            &&& supplied_by(a, resources)
        }
    &&& forall|i: int| 0 <= i < acts.len() - 1 ==> #[trigger] steps_on(acts, i)
}

/// All `count` activities of an instance lie on the grid.
pub open spec fn laid_out(
    acts: Seq<ActivityView>,
    resources: Seq<ResourceView>,
    cost: int,
    count: int,
    ends: Seq<u32>,
    lengths: Seq<u32>,
) -> bool {
    acts.len() == count && laid_upto(acts, resources, cost, count, ends, lengths)
}

/// What the time intervals give to the activities that lie on them: every
/// interval starts where the one before it ends or later, after it has
/// started, and the first starts at 0 where there is another.
proof fn lemma_time_grid(cost: int, count: int, ends: Seq<u32>, lengths: Seq<u32>)
    requires
        time_grid(cost, count, ends, lengths),
        1 <= cost,
        1 <= count,
        count == 1 || cost >= 2,
    ensures
        count >= 2 ==> ends.len() >= 2,
        forall|c: int|
            0 <= c < ends.len() ==> 1 <= #[trigger] lengths[c] <= ends[c] && ends[c] <= cost,
        forall|c: int|
            0 <= c < ends.len() - 1 ==> (#[trigger] ends[c]) - lengths[c] < ends[c + 1] - lengths[c
                + 1] && ends[c] <= ends[c + 1] - lengths[c + 1],
        ends.len() >= 2 ==> ends[0] - lengths[0] == 0,
        ends.len() >= 2 ==> ends[ends.len() - 1] - lengths[ends.len() - 1] >= 1,
{
    let n = ends.len() as int;
    lemma_triangular_grows(0, count);
    assert(triangular(1) == triangular(0) + 1);
    assert(triangular(2) == triangular(1) + 2);
    if count >= 2 {
        if triangular(count) < cost {
        } else {
            if n < 2 {
                assert(cost <= triangular(1));
            }
        }
    }
    assert forall|c: int| 0 <= c < n implies 1 <= #[trigger] lengths[c] <= ends[c] && ends[c]
        <= cost by {
        lemma_triangular_grows(c, c + 1);
        assert(triangular(c + 1) == triangular(c) + (c + 1));
        if c < n - 1 {
            lemma_triangular_grows(c + 1, n - 1);
            if triangular(count) < cost {
                lemma_triangular_grows(n - 1, count);
            }
        } else {
            lemma_triangular_grows(n - 1, count);
        }
    }
    assert forall|c: int| 0 <= c < n - 1 implies (#[trigger] ends[c]) - lengths[c] < ends[c + 1]
        - lengths[c + 1] && ends[c] <= ends[c + 1] - lengths[c + 1] by {
        assert(triangular(c + 1) == triangular(c) + (c + 1));
        if c + 1 < n - 1 {
            assert(triangular(c + 2) == triangular(c + 1) + (c + 2));
        } else {
            lemma_triangular_grows(c + 1, count);
        }
    }
    if n >= 2 {
        lemma_triangular_grows(1, n - 1);
        lemma_triangular_grows(n - 1, count);
    }
}

/// Lays the activities of an instance out on the grid.
fn lay_out(cost: u32, count: u32, resources: &Vec<RnResource>, capacity: u32) -> (r: (
    Vec<Activity>,
    Ghost<Seq<u32>>,
    Ghost<Seq<u32>>,
))
    requires
        1 <= cost <= i32::MAX,
        1 <= count <= u32::MAX - 2,
        count == 1 || cost >= 2,
        forall|i: int| 0 <= i < resources@.len() ==> (#[trigger] resources@[i]).id == i + 1,
    ensures
        time_grid(cost as int, count as int, r.1@, r.2@),
        laid_out(
            activities_view(r.0@),
            resources_view(resources@),
            cost as int,
            count as int,
            r.1@,
            r.2@,
        ),
{
    let (ends, lengths) = get_intervals_time(cost, count);
    let columns: usize = ends.len();
    proof {
        lemma_time_grid(cost as int, count as int, ends@, lengths@);
    }
    let (_, heights) = get_intervals_resource(columns as u32, count, capacity);
    let rows: usize = heights.len();
    assert(rows * columns > count) by (nonlinear_arith)
        requires
            rows == count as int / columns as int + 1,
            columns >= 1,
    ;
    let ghost view = resources_view(resources@);
    let mut remaining: Vec<u32> = Vec::new();
    let mut spent: Vec<bool> = Vec::new();
    let mut j: usize = 0;
    while j < resources.len()
        invariant
            j <= resources@.len(),
            remaining@.len() == j,
            spent@.len() == j,
            forall|k: int| 0 <= k < j ==> (#[trigger] remaining@[k]) <= resources@[k].capacity,
        decreases resources@.len() - j,
    {
        remaining.push(resources[j].capacity);
        spent.push(false);
        j += 1;
    }
    let mut activities: Vec<Activity> = Vec::new();
    let mut row: usize = 0;
    assert(0 * columns == 0) by (nonlinear_arith);
    while row < rows && activities.len() < count as usize
        invariant
            row <= rows,
            1 <= cost <= i32::MAX,
            1 <= count <= u32::MAX - 2,
            count == 1 || cost >= 2,
            columns == ends@.len(),
            rows == heights@.len(),
            rows * columns > count,
            time_grid(cost as int, count as int, ends@, lengths@),
            view == resources_view(resources@),
            forall|i: int| 0 <= i < resources@.len() ==> (#[trigger] resources@[i]).id == i + 1,
            remaining@.len() == resources@.len(),
            spent@.len() == resources@.len(),
            forall|k: int|
                0 <= k < resources@.len() ==> (#[trigger] remaining@[k]) <= resources@[k].capacity,
            activities@.len() <= count,
            activities@.len() < count ==> activities@.len() == row * columns,
            laid_upto(activities_view(activities@), view, cost as int, count as int, ends@, lengths@),
        decreases rows - row,
    {
        let demand: u32 = heights[row];
        let supplies: Vec<RnResourceUsage> = row_supplies(resources, &remaining, &spent, demand);
        let ghost fitting = usages_view(supplies@);
        proof {
            assert forall|k: int| 0 <= k < fitting.len() implies {
                let s = #[trigger] fitting[k];
                declared(view, s.resource) && usage_of(fitting, s.resource.id)
                    <= s.resource.capacity
            } by {
                lemma_usage_single(fitting, k);
                let s = fitting[k];
                assert(view[s.resource.id - 1] == resources@[s.resource.id - 1]@);
                assert(remaining@[s.resource.id - 1] <= resources@[s.resource.id - 1].capacity);
            }
            lemma_time_grid(cost as int, count as int, ends@, lengths@);
            assert forall|k: int| 0 <= k < supplies@.len() implies 1 <= (
            #[trigger] supplies@[k]).resource.id <= remaining@.len() by {
                assert(fitting[k] == supplies@[k]@);
            }
        }
        let mut column: usize = 0;
        while column < columns && activities.len() < count as usize
            invariant
                column <= columns,
                row < rows,
                1 <= cost <= i32::MAX,
                1 <= count <= u32::MAX - 2,
                count == 1 || cost >= 2,
                columns == ends@.len(),
                time_grid(cost as int, count as int, ends@, lengths@),
                fitting == usages_view(supplies@),
                forall|k: int|
                    0 <= k < supplies@.len() ==> 1 <= (#[trigger] supplies@[k]).resource.id
                        <= remaining@.len(),
                forall|k: int|
                    0 <= k < fitting.len() ==> {
                        let s = #[trigger] fitting[k];
                        declared(view, s.resource) && usage_of(fitting, s.resource.id)
                            <= s.resource.capacity
                    },
                activities@.len() <= count,
                activities@.len() < count || column > 0 ==> activities@.len() == row * columns
                    + column,
                laid_upto(
                    activities_view(activities@),
                    view,
                    cost as int,
                    count as int,
                    ends@,
                    lengths@,
                ),
            decreases columns - column,
        {
            proof {
                lemma_time_grid(cost as int, count as int, ends@, lengths@);
            }
            let ghost before = activities_view(activities@);
            let i: usize = activities.len();
            assert(i % columns == column) by (nonlinear_arith)
                requires
                    i == row * columns + column,
                    column < columns,
            ;
            let id: u32 = i as u32 + 2;
            let start: u32 = ends[column] - lengths[column];
            let duration: u32 = if i == count as usize - 1 {
                cost - start
            } else {
                lengths[column]
            };
            let activity = Activity::new(
                id,
                -1,
                decimal_string(id as u64),
                Vec::new(),
                Vec::new(),
                clone_supplies(&supplies),
                duration,
                start as i32,
            );
            activities.push(activity);
            proof {
                let now = activities_view(activities@);
                assert(now.len() == before.len() + 1);
                assert forall|x: int| 0 <= x < i implies #[trigger] now[x] == before[x] by {}
                assert(now[i as int].supplies == fitting);
                assert(supplied_by(now[i as int], view));
                if i > 0 {
                    // how the activity before this one stands to it
                    let prev = (i - 1) as int;
                    assert(now[prev] == before[prev]);
                    if column > 0 {
                        assert(prev % (columns as int) == column - 1) by (nonlinear_arith)
                            requires
                                prev == row * columns + (column - 1),
                                0 < column < columns,
                        ;
                    } else {
                        assert(row >= 1 && prev == (row - 1) * columns + (columns - 1))
                            by (nonlinear_arith)
                            requires
                                prev + 1 == row * columns,
                                prev >= 0,
                                columns >= 1,
                                row >= 0,
                        ;
                        assert(prev % (columns as int) == columns - 1) by (nonlinear_arith)
                            requires
                                prev == (row - 1) * columns + (columns - 1),
                                row >= 1,
                                columns >= 1,
                        ;
                        assert(columns >= 2);
                    }
                    assert(steps_on(now, prev));
                }
                assert forall|x: int| 0 <= x < now.len() - 1 implies #[trigger] steps_on(now, x) by {
                    if x < i - 1 {
                        assert(steps_on(before, x));
                    }
                }
            }
            column += 1;
        }
        consume_row(&mut remaining, &mut spent, &supplies, demand);
        proof {
            assert((row + 1) * columns == row * columns + columns) by (nonlinear_arith);
        }
        row += 1;
    }
    proof {
        if activities@.len() < count {
            assert(false);
        }
    }
    (activities, Ghost(ends@), Ghost(lengths@))
}

/// `b` is `a` but for its neighbours.
pub open spec fn body_kept(a: ActivityView, b: ActivityView) -> bool {
    b == (ActivityView { predecessors: b.predecessors, successors: b.successors, ..a })
}

/// `net` holds the activities of `base`, with other neighbours at most.
pub open spec fn bodies_kept(base: Seq<ActivityView>, net: Seq<ActivityView>) -> bool {
    net.len() == base.len() && forall|j: int|
        0 <= j < net.len() ==> body_kept(base[j], #[trigger] net[j])
}

/// `id` is the identity of an activity of `net`, which are numbered from 2.
pub open spec fn own(net: Seq<ActivityView>, id: u32) -> bool {
    2 <= id <= net.len() + 1
}

/// The activity at `j` comes before the one at `k` in time.
pub open spec fn precedes(net: Seq<ActivityView>, j: int, k: int) -> bool {
    net[j].start_time < net[k].start_time && finish(net[j]) <= net[k].start_time
}

/// The arcs of the instance so far. An arc between two activities leads
/// from one that has ended to one that starts later, and both record it;
/// the source, which is numbered 1 and whose successors are `source`, and
/// the sink, which is numbered after the activities and whose predecessors
/// are `sink`, record their arcs too.
pub open spec fn wired(net: Seq<ActivityView>, source: Seq<u32>, sink: Seq<u32>) -> bool {
    &&& forall|k: int, m: int|
        0 <= k < net.len() && 0 <= m < net[k].predecessors.len() ==> {
            let p = #[trigger] net[k].predecessors[m];
            if p == 1 {
                source.contains(net[k].id)
            } else {
                own(net, p) && precedes(net, p - 2, k) && net[p - 2].successors.contains(net[k].id)
            }
        }
    &&& forall|j: int, m: int|
        0 <= j < net.len() && 0 <= m < net[j].successors.len() ==> {
            let s = #[trigger] net[j].successors[m];
            if s == net.len() + 2 {
                sink.contains(net[j].id)
            } else {
                own(net, s) && precedes(net, j, s - 2) && net[s - 2].predecessors.contains(
                    net[j].id,
                )
            }
        }
    &&& forall|m: int|
        0 <= m < source.len() ==> own(net, #[trigger] source[m]) && net[source[m]
            - 2].predecessors.contains(1)
    &&& forall|m: int|
        0 <= m < sink.len() ==> own(net, #[trigger] sink[m]) && net[sink[m]
            - 2].successors.contains((net.len() + 2) as u32)
}

/// What is in a list stays in it when the list grows.
proof fn lemma_push_contains(s: Seq<u32>, x: u32, y: u32)
    ensures
        s.contains(y) ==> s.push(x).contains(y),
        s.push(x).contains(x),
{
    if s.contains(y) {
        let i = choose|i: int| 0 <= i < s.len() && s[i] == y;
        assert(s.push(x)[i] == y);
    }
    assert(s.push(x)[s.len() as int] == x);
}

/// Joins the activity at `i` to the one at `r` by an arc.
fn join(
    activities: &mut Vec<Activity>,
    i: usize,
    r: usize,
    Ghost(base): Ghost<Seq<ActivityView>>,
    Ghost(source): Ghost<Seq<u32>>,
    Ghost(sink): Ghost<Seq<u32>>,
)
    requires
        i < old(activities)@.len(),
        r < old(activities)@.len(),
        old(activities)@.len() <= u32::MAX - 2,
        bodies_kept(base, activities_view(old(activities)@)),
        forall|j: int| 0 <= j < base.len() ==> (#[trigger] base[j]).id == j + 2,
        wired(activities_view(old(activities)@), source, sink),
        precedes(activities_view(old(activities)@), i as int, r as int),
    ensures
        final(activities)@.len() == old(activities)@.len(),
        bodies_kept(base, activities_view(final(activities)@)),
        wired(activities_view(final(activities)@), source, sink),
        activities_view(final(activities)@)[i as int].successors == activities_view(
            old(activities)@,
        )[i as int].successors.push((r + 2) as u32),
        forall|j: int|
            0 <= j < old(activities)@.len() && j != i ==> (#[trigger] activities_view(
                final(activities)@,
            )[j]).successors == activities_view(old(activities)@)[j].successors,
{
    let ghost before = activities_view(activities@);
    let tail: u32 = activities[i].id;
    let head: u32 = activities[r].id;
    assert(before[i as int].id == i + 2 && before[r as int].id == r + 2);
    assert(i != r);
    activities[i].add_successor(head);
    activities[r].add_anteccessor(tail);
    proof {
        let now = activities_view(activities@);
        assert(now.len() == before.len());
        assert(now[i as int] == (ActivityView {
            successors: before[i as int].successors.push(head),
            ..before[i as int]
        }));
        assert(now[r as int] == (ActivityView {
            predecessors: before[r as int].predecessors.push(tail),
            ..before[r as int]
        }));
        assert forall|j: int| 0 <= j < now.len() && j != i && j != r implies #[trigger] now[j]
            == before[j] by {}
        assert forall|j: int| 0 <= j < now.len() implies now[j].start_time == before[j].start_time
            && now[j].duration == before[j].duration && now[j].id == before[j].id by {
            if j != i && j != r {
                assert(now[j] == before[j]);
            }
        }
        // what was recorded stays recorded
        assert forall|j: int, x: u32|
            0 <= j < now.len() && before[j].successors.contains(x) implies #[trigger] now[j].successors.contains(
            x,
        ) by {
            if j == i {
                lemma_push_contains(before[i as int].successors, head, x);
            } else if j != r {
                assert(now[j] == before[j]);
            }
        }
        assert forall|j: int, x: u32|
            0 <= j < now.len() && before[j].predecessors.contains(x) implies #[trigger] now[j].predecessors.contains(
            x,
        ) by {
            if j == r {
                lemma_push_contains(before[r as int].predecessors, tail, x);
            } else if j != i {
                assert(now[j] == before[j]);
            }
        }
        lemma_push_contains(before[i as int].successors, head, head);
        lemma_push_contains(before[r as int].predecessors, tail, tail);
        assert forall|k: int, m: int|
            0 <= k < now.len() && 0 <= m < now[k].predecessors.len() implies {
            let p = #[trigger] now[k].predecessors[m];
            if p == 1 {
                source.contains(now[k].id)
            } else {
                own(now, p) && precedes(now, p - 2, k) && now[p - 2].successors.contains(now[k].id)
            }
        } by {
            let p = now[k].predecessors[m];
            if k == r && m == before[r as int].predecessors.len() {
                assert(p == tail);
            } else {
                assert(p == before[k].predecessors[m]);
                if p != 1 {
                    assert(before[p - 2].successors.contains(before[k].id));
                }
            }
        }
        assert forall|j: int, m: int|
            0 <= j < now.len() && 0 <= m < now[j].successors.len() implies {
            let s = #[trigger] now[j].successors[m];
            if s == now.len() + 2 {
                sink.contains(now[j].id)
            } else {
                own(now, s) && precedes(now, j, s - 2) && now[s - 2].predecessors.contains(
                    now[j].id,
                )
            }
        } by {
            let s = now[j].successors[m];
            if j == i && m == before[i as int].successors.len() {
                assert(s == head);
            } else {
                assert(s == before[j].successors[m]);
                if s != now.len() + 2 {
                    assert(before[s - 2].predecessors.contains(before[j].id));
                }
            }
        }
        assert forall|m: int| 0 <= m < source.len() implies own(now, #[trigger] source[m])
            && now[source[m] - 2].predecessors.contains(1) by {
            assert(before[source[m] - 2].predecessors.contains(1));
        }
        assert forall|m: int| 0 <= m < sink.len() implies own(now, #[trigger] sink[m]) && now[sink[m]
            - 2].successors.contains((now.len() + 2) as u32) by {
            assert(before[sink[m] - 2].successors.contains((now.len() + 2) as u32));
        }
        assert forall|j: int| 0 <= j < now.len() implies body_kept(base[j], #[trigger] now[j]) by {
            assert(body_kept(base[j], before[j]));
        }
    }
}

/// How often a successor is drawn before the search for one is given up.
pub const DRAW_ATTEMPTS: u32 = 1000000;

/// The activities of `base` are numbered from 2, none has a neighbour, and
/// each starts after the next or ends before the next starts.
pub open spec fn in_rows(base: Seq<ActivityView>) -> bool {
    &&& forall|j: int|
        0 <= j < base.len() ==> (#[trigger] base[j]).id == j + 2 && base[j].predecessors.len() == 0
            && base[j].successors.len() == 0 && 0 <= base[j].start_time
    &&& forall|j: int| 0 <= j < base.len() - 1 ==> #[trigger] steps_on(base, j)
}

/// The first `i` activities that are followed in their row have a
/// successor.
pub open spec fn followed_upto(base: Seq<ActivityView>, net: Seq<ActivityView>, i: int) -> bool {
    forall|j: int|
        0 <= j < i && j < net.len() - 1 && base[j].start_time < base[j + 1].start_time ==> (
        #[trigger] net[j]).successors.len() >= 1
}

/// Draws the arcs between the activities: every activity that is followed
/// in its row gets successors among the activities that start later, after
/// it has ended; how many is drawn from 1 up to `most` or as many as there
/// could be, and which they are is drawn too.
fn draw_arcs(
    activities: &mut Vec<Activity>,
    rng: &mut StdRng,
    most: u32,
    Ghost(base): Ghost<Seq<ActivityView>>,
)
    requires
        most >= 1,
        1 <= old(activities)@.len() <= u32::MAX - 2,
        activities_view(old(activities)@) == base,
        in_rows(base),
    ensures
        final(activities)@.len() == old(activities)@.len(),
        bodies_kept(base, activities_view(final(activities)@)),
        wired(activities_view(final(activities)@), Seq::empty(), Seq::empty()),
        followed_upto(base, activities_view(final(activities)@), base.len() as int),
{
    let n: usize = activities.len();
    let ghost none = Seq::<u32>::empty();
    let mut i: usize = 0;
    assert(bodies_kept(base, activities_view(activities@)));
    while i + 1 < n
        invariant
            i < n,
            most >= 1,
            n == activities@.len(),
            n == base.len(),
            1 <= n <= u32::MAX - 2,
            none == Seq::<u32>::empty(),
            in_rows(base),
            bodies_kept(base, activities_view(activities@)),
            wired(activities_view(activities@), none, none),
            followed_upto(base, activities_view(activities@), i as int),
            forall|j: int|
                i <= j < n ==> (#[trigger] activities_view(activities@)[j]).successors.len() == 0,
        decreases n - i,
    {
        let ghost entry = activities_view(activities@);
        assert(body_kept(base[i as int], entry[i as int]));
        assert(body_kept(base[i + 1], entry[i + 1]));
        if activities[i + 1].start_time >= activities[i].start_time {
            let start: i64 = activities[i].start_time as i64;
            let end: i64 = start + activities[i].duration as i64;
            assert(steps_on(base, i as int));
            assert(precedes(entry, i as int, i + 1));
            let mut posible: u32 = 0;
            let mut x: usize = 0;
            while x < n
                invariant
                    x <= n,
                    i + 1 < n,
                    n == activities@.len(),
                    n <= u32::MAX - 2,
                    posible <= x,
                    x > i + 1 ==> posible >= 1,
                    entry == activities_view(activities@),
                    start == entry[i as int].start_time,
                    end == start + entry[i as int].duration,
                    precedes(entry, i as int, i + 1),
                decreases n - x,
            {
                assert(entry[x as int] == activities@[x as int]@);
                let other: i64 = activities[x].start_time as i64;
                if other > start && end <= other {
                    posible += 1;
                }
                x += 1;
            }
            let max: u32 = if posible < most {
                posible
            } else {
                most
            };
            let drawn: u32 = draw_number(rng, 1, max + 1);
            let mut left: u32 = drawn;
            let mut linked: bool = false;
            while left > 0
                invariant
                    i + 1 < n,
                    n == activities@.len(),
                    n == base.len(),
                    1 <= n <= u32::MAX - 2,
                    none == Seq::<u32>::empty(),
                    in_rows(base),
                    bodies_kept(base, activities_view(activities@)),
                    wired(activities_view(activities@), none, none),
                    followed_upto(base, activities_view(activities@), i as int),
                    forall|j: int|
                        i < j < n ==> (#[trigger] activities_view(activities@)[j]).successors.len()
                            == 0,
                    start == base[i as int].start_time,
                    end == start + base[i as int].duration,
                    precedes(base, i as int, i + 1),
                    linked || left == drawn,
                    drawn >= 1,
                    linked ==> activities_view(activities@)[i as int].successors.len() >= 1,
                    !linked ==> activities_view(activities@)[i as int].successors.len() == 0,
                decreases left,
            {
                let ghost now = activities_view(activities@);
                let mut found: usize = n;
                let mut tries: u32 = DRAW_ATTEMPTS;
                while tries > 0 && found == n
                    invariant
                        i + 1 < n,
                        n == activities@.len(),
                        n == base.len(),
                        now == activities_view(activities@),
                        bodies_kept(base, now),
                        start == base[i as int].start_time,
                        end == start + base[i as int].duration,
                        found <= n,
                        found < n ==> precedes(base, i as int, found as int),
                    decreases tries,
                {
                    tries -= 1;
                    let r: usize = draw_between(rng, 0, n);
                    assert(now[r as int] == activities@[r as int]@);
                    assert(now[i as int] == activities@[i as int]@);
                    assert(body_kept(base[r as int], now[r as int]));
                    let other: i64 = activities[r].start_time as i64;
                    if r != i && other > start && !contains_id(
                        &activities[i].successors,
                        activities[r].id,
                    ) && end <= other {
                        found = r;
                    }
                }
                if found == n && !linked {
                    found = i + 1;
                }
                if found < n {
                    proof {
                        assert(body_kept(base[i as int], now[i as int]));
                        assert(body_kept(base[found as int], now[found as int]));
                        assert(precedes(now, i as int, found as int));
                    }
                    join(activities, i, found, Ghost(base), Ghost(none), Ghost(none));
                    proof {
                        let after = activities_view(activities@);
                        assert forall|j: int|
                            0 <= j < i && j < after.len() - 1 && base[j].start_time < base[j
                                + 1].start_time implies (#[trigger] after[j]).successors.len()
                            >= 1 by {
                            assert(after[j].successors == now[j].successors);
                        }
                        assert forall|j: int| i < j < n implies (#[trigger] after[j]).successors.len()
                            == 0 by {
                            assert(after[j].successors == now[j].successors);
                        }
                    }
                    linked = true;
                    left -= 1;
                } else {
                    left = 0;
                }
            }
            proof {
                let after = activities_view(activities@);
                assert(after[i as int].successors.len() >= 1);
            }
        }
        proof {
            let after = activities_view(activities@);
            assert forall|j: int|
                0 <= j < i + 1 && j < after.len() - 1 && base[j].start_time < base[j
                    + 1].start_time implies (#[trigger] after[j]).successors.len() >= 1 by {
                if j == i {
                    assert(body_kept(base[i as int], entry[i as int]));
                    assert(body_kept(base[i + 1], entry[i + 1]));
                }
            }
        }
        i += 1;
    }
}

/// Ties the activity at `j` to the source.
fn tie_source(
    activities: &mut Vec<Activity>,
    initial: &mut Activity,
    j: usize,
    Ghost(base): Ghost<Seq<ActivityView>>,
    Ghost(sink): Ghost<Seq<u32>>,
)
    requires
        j < old(activities)@.len(),
        old(activities)@.len() <= u32::MAX - 2,
        old(initial).id == 1,
        bodies_kept(base, activities_view(old(activities)@)),
        forall|x: int| 0 <= x < base.len() ==> (#[trigger] base[x]).id == x + 2,
        wired(activities_view(old(activities)@), old(initial)@.successors, sink),
    ensures
        final(activities)@.len() == old(activities)@.len(),
        bodies_kept(base, activities_view(final(activities)@)),
        wired(activities_view(final(activities)@), final(initial)@.successors, sink),
        final(initial)@ == (ActivityView {
            successors: old(initial)@.successors.push((j + 2) as u32),
            ..old(initial)@
        }),
        activities_view(final(activities)@)[j as int].predecessors.len() >= 1,
        forall|x: int|
            0 <= x < old(activities)@.len() ==> (#[trigger] activities_view(
                final(activities)@,
            )[x]).successors == activities_view(old(activities)@)[x].successors
                && activities_view(final(activities)@)[x].predecessors.len()
                >= activities_view(old(activities)@)[x].predecessors.len(),
{
    let ghost before = activities_view(activities@);
    let ghost source = initial@.successors;
    let id: u32 = activities[j].id;
    assert(before[j as int].id == j + 2);
    initial.add_successor(id);
    activities[j].add_anteccessor(1);
    proof {
        let now = activities_view(activities@);
        let grown = initial@.successors;
        assert(grown == source.push(id));
        assert(now[j as int] == (ActivityView {
            predecessors: before[j as int].predecessors.push(1),
            ..before[j as int]
        }));
        assert forall|x: int| 0 <= x < now.len() && x != j implies #[trigger] now[x]
            == before[x] by {}
        assert forall|x: u32| source.contains(x) implies grown.contains(x) by {
            lemma_push_contains(source, id, x);
        }
        lemma_push_contains(source, id, id);
        lemma_push_contains(before[j as int].predecessors, 1, 1);
        assert forall|x: int, y: u32|
            0 <= x < now.len() && before[x].predecessors.contains(y) implies #[trigger] now[x].predecessors.contains(
            y,
        ) by {
            if x == j {
                lemma_push_contains(before[j as int].predecessors, 1, y);
            }
        }
        assert forall|k: int, m: int|
            0 <= k < now.len() && 0 <= m < now[k].predecessors.len() implies {
            let p = #[trigger] now[k].predecessors[m];
            if p == 1 {
                grown.contains(now[k].id)
            } else {
                own(now, p) && precedes(now, p - 2, k) && now[p - 2].successors.contains(now[k].id)
            }
        } by {
            let p = now[k].predecessors[m];
            if k == j && m == before[j as int].predecessors.len() {
                assert(p == 1);
            } else {
                assert(p == before[k].predecessors[m]);
                if p == 1 {
                    assert(source.contains(before[k].id));
                } else {
                    assert(before[p - 2].successors.contains(before[k].id));
                    assert(now[p - 2].successors == before[p - 2].successors);
                }
            }
        }
        assert forall|x: int, m: int|
            0 <= x < now.len() && 0 <= m < now[x].successors.len() implies {
            let s = #[trigger] now[x].successors[m];
            if s == now.len() + 2 {
                sink.contains(now[x].id)
            } else {
                own(now, s) && precedes(now, x, s - 2) && now[s - 2].predecessors.contains(
                    now[x].id,
                )
            }
        } by {
            let s = now[x].successors[m];
            assert(s == before[x].successors[m]);
            if s != now.len() + 2 {
                assert(before[s - 2].predecessors.contains(before[x].id));
            }
        }
        assert forall|m: int| 0 <= m < grown.len() implies own(now, #[trigger] grown[m])
            && now[grown[m] - 2].predecessors.contains(1) by {
            if m < source.len() {
                assert(grown[m] == source[m]);
                assert(before[source[m] - 2].predecessors.contains(1));
            }
        }
        assert forall|m: int| 0 <= m < sink.len() implies own(now, #[trigger] sink[m]) && now[sink[m]
            - 2].successors.contains((now.len() + 2) as u32) by {
            assert(before[sink[m] - 2].successors.contains((now.len() + 2) as u32));
        }
        assert forall|x: int| 0 <= x < now.len() implies body_kept(base[x], #[trigger] now[x]) by {
            assert(body_kept(base[x], before[x]));
        }
    }
}

/// Ties the activity at `j` to the sink.
fn tie_sink(
    activities: &mut Vec<Activity>,
    end: &mut Activity,
    j: usize,
    Ghost(base): Ghost<Seq<ActivityView>>,
    Ghost(source): Ghost<Seq<u32>>,
)
    requires
        j < old(activities)@.len(),
        old(activities)@.len() <= u32::MAX - 2,
        old(end).id == old(activities)@.len() + 2,
        bodies_kept(base, activities_view(old(activities)@)),
        forall|x: int| 0 <= x < base.len() ==> (#[trigger] base[x]).id == x + 2,
        wired(activities_view(old(activities)@), source, old(end)@.predecessors),
    ensures
        final(activities)@.len() == old(activities)@.len(),
        bodies_kept(base, activities_view(final(activities)@)),
        wired(activities_view(final(activities)@), source, final(end)@.predecessors),
        final(end)@ == (ActivityView {
            predecessors: old(end)@.predecessors.push((j + 2) as u32),
            ..old(end)@
        }),
        activities_view(final(activities)@)[j as int].successors.len() >= 1,
        forall|x: int|
            0 <= x < old(activities)@.len() ==> (#[trigger] activities_view(
                final(activities)@,
            )[x]).predecessors == activities_view(old(activities)@)[x].predecessors
                && activities_view(final(activities)@)[x].successors.len() >= activities_view(
                old(activities)@,
            )[x].successors.len(),
{
    let ghost before = activities_view(activities@);
    let ghost sink = end@.predecessors;
    let id: u32 = activities[j].id;
    let last: u32 = end.id;
    assert(before[j as int].id == j + 2);
    end.add_anteccessor(id);
    activities[j].add_successor(last);
    proof {
        let now = activities_view(activities@);
        let grown = end@.predecessors;
        assert(grown == sink.push(id));
        assert(now[j as int] == (ActivityView {
            successors: before[j as int].successors.push(last),
            ..before[j as int]
        }));
        assert forall|x: int| 0 <= x < now.len() && x != j implies #[trigger] now[x]
            == before[x] by {}
        assert forall|x: u32| sink.contains(x) implies grown.contains(x) by {
            lemma_push_contains(sink, id, x);
        }
        lemma_push_contains(sink, id, id);
        lemma_push_contains(before[j as int].successors, last, last);
        assert forall|x: int, y: u32|
            0 <= x < now.len() && before[x].successors.contains(y) implies #[trigger] now[x].successors.contains(
            y,
        ) by {
            if x == j {
                lemma_push_contains(before[j as int].successors, last, y);
            }
        }
        assert forall|k: int, m: int|
            0 <= k < now.len() && 0 <= m < now[k].predecessors.len() implies {
            let p = #[trigger] now[k].predecessors[m];
            if p == 1 {
                source.contains(now[k].id)
            } else {
                own(now, p) && precedes(now, p - 2, k) && now[p - 2].successors.contains(now[k].id)
            }
        } by {
            let p = now[k].predecessors[m];
            assert(p == before[k].predecessors[m]);
            if p != 1 {
                assert(before[p - 2].successors.contains(before[k].id));
            }
        }
        assert forall|x: int, m: int|
            0 <= x < now.len() && 0 <= m < now[x].successors.len() implies {
            let s = #[trigger] now[x].successors[m];
            if s == now.len() + 2 {
                grown.contains(now[x].id)
            } else {
                own(now, s) && precedes(now, x, s - 2) && now[s - 2].predecessors.contains(
                    now[x].id,
                )
            }
        } by {
            let s = now[x].successors[m];
            if x == j && m == before[j as int].successors.len() {
                assert(s == last);
            } else {
                assert(s == before[x].successors[m]);
                if s == now.len() + 2 {
                    assert(sink.contains(before[x].id));
                } else {
                    assert(before[s - 2].predecessors.contains(before[x].id));
                    assert(now[s - 2].predecessors == before[s - 2].predecessors);
                }
            }
        }
        assert forall|m: int| 0 <= m < source.len() implies own(now, #[trigger] source[m])
            && now[source[m] - 2].predecessors.contains(1) by {
            assert(before[source[m] - 2].predecessors.contains(1));
        }
        assert forall|m: int| 0 <= m < grown.len() implies own(now, #[trigger] grown[m]) && now[grown[m]
            - 2].successors.contains((now.len() + 2) as u32) by {
            if m < sink.len() {
                assert(grown[m] == sink[m]);
                assert(before[sink[m] - 2].successors.contains((now.len() + 2) as u32));
            }
        }
        assert forall|x: int| 0 <= x < now.len() implies body_kept(base[x], #[trigger] now[x]) by {
            assert(body_kept(base[x], before[x]));
        }
    }
}

/// The source, the activities and the sink in one list.
pub open spec fn assembled(
    initial: ActivityView,
    net: Seq<ActivityView>,
    end: ActivityView,
) -> Seq<ActivityView> {
    seq![initial] + net + seq![end]
}

/// The start times that the activities carry are a schedule of length
/// `cost`: the source starts at 0, the sink at `cost`, every activity runs
/// between them, and none starts before a predecessor of it has ended.
pub open spec fn known_schedule(acts: Seq<ActivityView>, cost: int) -> bool {
    &&& acts[0].start_time == 0
    &&& acts.last().start_time == cost
    &&& forall|k: int|
        0 <= k < acts.len() ==> 0 <= (#[trigger] acts[k]).start_time && finish(acts[k]) <= cost
    &&& forall|k: int, m: int|
        0 <= k < acts.len() && 0 <= m < acts[k].predecessors.len() ==> finish(
            acts[position(acts, #[trigger] acts[k].predecessors[m])],
        ) <= acts[k].start_time
}

/// The source, the activities with their arcs, and the sink make a network
/// whose start times are a schedule.
proof fn lemma_assembled(
    initial: ActivityView,
    net: Seq<ActivityView>,
    end: ActivityView,
    base: Seq<ActivityView>,
    resources: Seq<ResourceView>,
    cost: int,
)
    requires
        1 <= net.len() <= u32::MAX - 2,
        0 <= cost <= i32::MAX,
        initial.id == 1,
        initial.predecessors.len() == 0,
        initial.successors.len() >= 1,
        is_dummy(initial),
        initial.start_time == 0,
        end.id == net.len() + 2,
        end.successors.len() == 0,
        end.predecessors.len() >= 1,
        is_dummy(end),
        end.start_time == cost,
        bodies_kept(base, net),
        forall|j: int|
            0 <= j < base.len() ==> {
                &&& (#[trigger] base[j]).id == j + 2
                &&& 0 <= base[j].start_time
                &&& base[j].start_time + base[j].duration <= cost
                &&& supplied_by(base[j], resources)
            },
        wired(net, initial.successors, end.predecessors),
        forall|j: int|
            0 <= j < net.len() ==> (#[trigger] net[j]).predecessors.len() >= 1
                && net[j].successors.len() >= 1,
        forall|i: int| 0 <= i < resources.len() ==> (#[trigger] resources[i]).id == i + 1,
    ensures
        schema(ProjectView { activities: assembled(initial, net, end), resources }),
        known_schedule(assembled(initial, net, end), cost),
{
    let full = assembled(initial, net, end);
    let n = net.len() as int;
    let p = ProjectView { activities: full, resources };
    assert(full.len() == n + 2);
    assert(full[0] == initial);
    assert(full[n + 1] == end);
    assert forall|j: int| 0 <= j < n implies #[trigger] full[j + 1] == net[j] by {}
    assert forall|x: int| 0 <= x < full.len() implies (#[trigger] full[x]).id == x + 1 by {
        if 0 < x <= n {
            assert(full[x] == net[x - 1]);
            assert(body_kept(base[x - 1], net[x - 1]));
        }
    }
    assert(distinct_ids(full));
    assert forall|id: u32| 1 <= id <= n + 2 implies has_id(full, id) && #[trigger] position(
        full,
        id,
    ) == id - 1 by {
        assert(full[id - 1].id == id);
        lemma_position_distinct(full, id - 1);
    }
    // the neighbours of every place
    assert forall|x: int| 0 <= x < full.len() implies {
        &&& all_known(full, (#[trigger] full[x]).predecessors)
        &&& all_known(full, full[x].successors)
        &&& forall|m: int|
            0 <= m < full[x].predecessors.len() ==> names_successor(
                full,
                #[trigger] full[x].predecessors[m],
                full[x].id,
            ) && finish(full[position(full, full[x].predecessors[m])]) <= full[x].start_time
        &&& forall|m: int|
            0 <= m < full[x].successors.len() ==> names_predecessor(
                full,
                #[trigger] full[x].successors[m],
                full[x].id,
            )
    } by {
        if x == 0 {
            assert forall|m: int| 0 <= m < initial.successors.len() implies has_id(
                full,
                #[trigger] initial.successors[m],
            ) && names_predecessor(full, initial.successors[m], initial.id) by {
                let s = initial.successors[m];
                assert(own(net, s) && net[s - 2].predecessors.contains(1));
                assert(full[s - 1] == net[s - 2]);
            }
        } else if x == n + 1 {
            assert forall|m: int| 0 <= m < end.predecessors.len() implies has_id(
                full,
                #[trigger] end.predecessors[m],
            ) && names_successor(full, end.predecessors[m], end.id) && finish(
                full[position(full, end.predecessors[m])],
            ) <= end.start_time by {
                let q = end.predecessors[m];
                assert(own(net, q) && net[q - 2].successors.contains((n + 2) as u32));
                assert(full[q - 1] == net[q - 2]);
                assert(body_kept(base[q - 2], net[q - 2]));
            }
        } else {
            let k = x - 1;
            assert(full[x] == net[k]);
            assert(body_kept(base[k], net[k]));
            assert forall|m: int| 0 <= m < net[k].predecessors.len() implies has_id(
                full,
                #[trigger] net[k].predecessors[m],
            ) && names_successor(full, net[k].predecessors[m], net[k].id) && finish(
                full[position(full, net[k].predecessors[m])],
            ) <= net[k].start_time by {
                let q = net[k].predecessors[m];
                if q == 1 {
                    assert(initial.successors.contains(net[k].id));
                } else {
                    assert(own(net, q) && precedes(net, q - 2, k) && net[q - 2].successors.contains(
                        net[k].id,
                    ));
                    assert(full[q - 1] == net[q - 2]);
                }
            }
            assert forall|m: int| 0 <= m < net[k].successors.len() implies has_id(
                full,
                #[trigger] net[k].successors[m],
            ) && names_predecessor(full, net[k].successors[m], net[k].id) by {
                let s = net[k].successors[m];
                if s == n + 2 {
                    assert(end.predecessors.contains(net[k].id));
                } else {
                    assert(own(net, s) && net[s - 2].predecessors.contains(net[k].id));
                    assert(full[s - 1] == net[s - 2]);
                }
            }
        }
    }
    assert(has_dummies(full)) by {
        assert(full.last() == end);
        assert forall|x: int| 0 <= x < full.len() implies ((#[trigger] full[x]).predecessors.len()
            == 0 <==> x == 0) by {
            if 0 < x <= n {
                assert(full[x] == net[x - 1]);
            }
        }
        assert forall|x: int| 0 <= x < full.len() implies ((#[trigger] full[x]).successors.len()
            == 0 <==> x == full.len() - 1) by {
            if 0 < x <= n {
                assert(full[x] == net[x - 1]);
            }
        }
    }
    assert(arcs_known(full));
    assert(arcs_mirrored(full));
    // the start times rank the activities
    let rank = Seq::new(
        full.len(),
        |x: int|
            if x == 0 {
                0nat
            } else if x == n + 1 {
                (cost + 2) as nat
            } else {
                (full[x].start_time + 1) as nat
            },
    );
    assert forall|x: int, m: int|
        0 <= x < full.len() && 0 <= m < full[x].predecessors.len() implies rank[position(
        full,
        #[trigger] full[x].predecessors[m],
    )] < rank[x] by {
        let q = full[x].predecessors[m];
        assert(names_successor(full, q, full[x].id));
        assert(has_id(full, q)) by {
            assert(all_known(full, full[x].predecessors));
        }
        crate::model::lemma_position(full, q);
        let at = position(full, q);
        assert(at != n + 1) by {
            if at == n + 1 {
                assert(full[at].successors.contains(full[x].id));
            }
        }
        if 0 < at <= n {
            assert(full[at] == net[at - 1]);
            assert(body_kept(base[at - 1], net[at - 1]));
        }
        if 0 < x <= n {
            assert(full[x] == net[x - 1]);
            assert(body_kept(base[x - 1], net[x - 1]));
            if q != 1 {
                let w = net[x - 1].predecessors[m];
                assert(precedes(net, w - 2, x - 1));
            }
        }
    }
    assert(respects(full, rank));
    assert(supplies_fit(p)) by {
        assert forall|i: int, j: int| 0 <= i < j < resources.len() implies (
        #[trigger] resources[i]).id != (#[trigger] resources[j]).id by {}
        assert forall|x: int, k: int| 0 <= x < full.len() && 0 <= k < full[x].supplies.len() implies {
            let u = #[trigger] full[x].supplies[k];
            declared(resources, u.resource) && usage_of(full[x].supplies, u.resource.id)
                <= u.resource.capacity
        } by {
            assert(0 < x <= n);
            assert(full[x] == net[x - 1]);
            assert(body_kept(base[x - 1], net[x - 1]));
            assert(supplied_by(base[x - 1], resources));
            assert(full[x].supplies == base[x - 1].supplies);
        }
    }
    assert(known_schedule(full, cost)) by {
        assert(full.last() == end);
        assert forall|k: int| 0 <= k < full.len() implies 0 <= (#[trigger] full[k]).start_time
            && finish(full[k]) <= cost by {
            if 0 < k <= n {
                assert(full[k] == net[k - 1]);
                assert(body_kept(base[k - 1], net[k - 1]));
            }
        }
    }
}

/// An instance can be made of these numbers: the schedule has a length
/// that an `i32` holds, the activities with the two dummies can be
/// numbered, there is a resource, an activity may have a successor, and
/// where there are two activities or more there is time for two intervals.
pub open spec fn generable(cost: u32, activities: u32, resources: u32, most: u32) -> bool {
    &&& 1 <= cost <= i32::MAX
    &&& 1 <= activities <= u32::MAX - 2
    &&& resources >= 1
    &&& most >= 1
    &&& activities == 1 || cost >= 2
}

/// Between the dummies stand `count` activities as they lie on the grid of
/// time intervals: they are numbered from 2, none has a parent, each
/// starts with its interval and lasts as long, but for the last, which
/// lasts until `cost`.
pub open spec fn gridded(
    acts: Seq<ActivityView>,
    cost: int,
    count: int,
    ends: Seq<u32>,
    lengths: Seq<u32>,
) -> bool {
    &&& acts.len() == count + 2
    &&& forall|i: int|
        0 <= i < count ==> {
            let a = #[trigger] acts[i + 1];
            let column = i % (ends.len() as int);
            &&& a.id == i + 2
            &&& a.parent == -1
            &&& a.name == decimal((i + 2) as nat)
            &&& a.start_time == ends[column] - lengths[column]
            &&& a.duration == if i == count - 1 {
                cost - a.start_time
            } else {
                lengths[column] as int
            }
        }
}

/// The dummies stand at the ends: the source is numbered 1 and the sink
/// after the `count` activities between them, each is named by its number,
/// and neither has a parent.
pub open spec fn dummies_numbered(acts: Seq<ActivityView>, count: int) -> bool {
    &&& acts[0].id == 1
    &&& acts[0].parent == -1
    &&& acts[0].name == decimal(1)
    &&& acts.last().id == count + 2
    &&& acts.last().parent == -1
    &&& acts.last().name == decimal((count + 2) as nat)
}

/// A random instance with a known schedule of length `random_cost`.
///
/// `random_resources_max_capacity` units are shared out among
/// `random_resources` resources. `random_activities` activities are laid
/// out on a grid of time intervals and rows of resource units, row after
/// row, and each holds the units of its row. Every activity that is
/// followed in its row gets successors among the activities that start
/// after it has ended: how many is drawn from 1 up to `most_successors`, or
/// up to as many as there could be, and which they are is drawn too, by a
/// generator started from `random_seed`; where no draw out of
/// `DRAW_ATTEMPTS` gives one, the activity after it in the row is its
/// successor if it has none yet, and it gets no more. The source comes
/// before every activity that starts at 0 or has no predecessor, the sink
/// after every activity that is the last of its row.
///
/// The result is a network whose start times are a schedule of that
/// length. Numbers of which no instance can be made are refused.
pub fn get_random_rcpsp(
    random_seed: u64,
    random_cost: u32,
    random_activities: u32,
    random_resources: u32,
    random_resources_max_capacity: u32,
    most_successors: u32,
) -> (r: Result<Project, ScheduleError>)
    ensures
        match r {
            Ok(p) => {
                &&& generable(random_cost, random_activities, random_resources, most_successors)
                &&& schema(p@)
                &&& shared_out(
                    p@.resources,
                    random_resources as int,
                    random_resources_max_capacity as int,
                )
                &&& known_schedule(p@.activities, random_cost as int)
                &&& dummies_numbered(p@.activities, random_activities as int)
                &&& exists|ends: Seq<u32>, lengths: Seq<u32>|
                    #[trigger] time_grid(
                        random_cost as int,
                        random_activities as int,
                        ends,
                        lengths,
                    ) && gridded(
                        p@.activities,
                        random_cost as int,
                        random_activities as int,
                        ends,
                        lengths,
                    )
            },
            Err(e) => e == ScheduleError::ParameterOutOfRange && !generable(
                random_cost,
                random_activities,
                random_resources,
                most_successors,
            ),
        },
{
    if random_cost == 0 || random_cost > 0x7fff_ffff || random_activities == 0 || random_activities
        > 0xffff_fffd || random_resources == 0 || most_successors == 0 || (random_activities != 1
        && random_cost < 2) {
        return Err(ScheduleError::ParameterOutOfRange);
    }
    let resources: Vec<RnResource> = share_out(random_resources, random_resources_max_capacity);
    let ghost units = resources_view(resources@);
    assert forall|i: int| 0 <= i < resources@.len() implies (#[trigger] resources@[i]).id == i
        + 1 by {
        assert(units[i] == resources@[i]@);
    }
    let (laid, Ghost(ends), Ghost(lengths)) = lay_out(
        random_cost,
        random_activities,
        &resources,
        random_resources_max_capacity,
    );
    let mut activities: Vec<Activity> = laid;
    let ghost base = activities_view(activities@);
    let n: usize = activities.len();
    proof {
        lemma_time_grid(random_cost as int, random_activities as int, ends, lengths);
        assert(n == random_activities);
        assert forall|j: int| 0 <= j < base.len() implies (#[trigger] base[j]).id == j + 2
            && base[j].predecessors.len() == 0 && base[j].successors.len() == 0 && 0
            <= base[j].start_time by {}
        if n >= 2 {
            assert(base[0].start_time == ends[0] - lengths[0]) by {
                assert(0int % (ends.len() as int) == 0);
            }
        }
    }
    let mut rng = seeded(random_seed);
    draw_arcs(&mut activities, &mut rng, most_successors, Ghost(base));
    let mut initial: Activity = Activity::new(
        1,
        -1,
        decimal_string(1),
        Vec::new(),
        Vec::new(),
        Vec::new(),
        0,
        0,
    );
    let mut end: Activity = Activity::new(
        random_activities + 2,
        -1,
        decimal_string((random_activities + 2) as u64),
        Vec::new(),
        Vec::new(),
        Vec::new(),
        0,
        random_cost as i32,
    );
    assert(initial@.successors =~= Seq::empty());
    assert(end@.predecessors =~= Seq::empty());
    let ghost first_arcs = activities_view(activities@);
    let mut j: usize = 0;
    while j < n
        invariant
            j <= n,
            n == activities@.len(),
            n == base.len(),
            1 <= n <= u32::MAX - 2,
            initial.id == 1,
            initial@.predecessors.len() == 0,
            is_dummy(initial@),
            initial@.start_time == 0,
            initial@.parent == -1,
            initial@.name == decimal(1),
            end@.predecessors == Seq::<u32>::empty(),
            forall|x: int| 0 <= x < base.len() ==> (#[trigger] base[x]).id == x + 2,
            n >= 2 ==> base[0].start_time == 0,
            bodies_kept(base, activities_view(activities@)),
            wired(activities_view(activities@), initial@.successors, end@.predecessors),
            followed_upto(base, activities_view(activities@), n as int),
            forall|x: int|
                0 <= x < j ==> (#[trigger] activities_view(activities@)[x]).predecessors.len() >= 1,
            j >= 1 ==> initial@.successors.len() >= 1,
            j == 0 ==> initial@.successors.len() == 0,
            forall|x: int| 0 <= x < base.len() ==> 0 <= (#[trigger] base[x]).start_time,
        decreases n - j,
    {
        let ghost now = activities_view(activities@);
        assert(now[j as int] == activities@[j as int]@);
        assert(body_kept(base[j as int], now[j as int]));
        proof {
            if j == 0 && now[0].predecessors.len() > 0 && now[0].start_time != 0 {
                // the first activity starts at 0 or is alone
                let q = now[0].predecessors[0];
                assert(!initial@.successors.contains(now[0].id));
                assert(own(now, q) && precedes(now, q - 2, 0));
                assert(body_kept(base[q - 2], now[q - 2]));
            }
        }
        if activities[j].start_time == 0 || activities[j].predecessors.len() == 0 {
            tie_source(&mut activities, &mut initial, j, Ghost(base), Ghost(end@.predecessors));
            proof {
                let after = activities_view(activities@);
                assert forall|x: int|
                    0 <= x < n && x < after.len() - 1 && base[x].start_time < base[x
                        + 1].start_time implies (#[trigger] after[x]).successors.len() >= 1 by {
                    assert(after[x].successors == now[x].successors);
                }
                assert forall|x: int| 0 <= x < j + 1 implies (#[trigger] after[x]).predecessors.len()
                    >= 1 by {
                    if x < j {
                        assert(after[x].predecessors.len() >= now[x].predecessors.len());
                    }
                }
            }
        }
        j += 1;
    }
    let mut j: usize = 0;
    while j < n
        invariant
            j <= n,
            n == activities@.len(),
            n == base.len(),
            1 <= n <= u32::MAX - 2,
            end.id == n + 2,
            end@.successors.len() == 0,
            is_dummy(end@),
            end@.start_time == random_cost,
            end@.parent == -1,
            end@.name == decimal((n + 2) as nat),
            forall|x: int| 0 <= x < base.len() ==> (#[trigger] base[x]).id == x + 2,
            forall|x: int| 0 <= x < base.len() - 1 ==> #[trigger] steps_on(base, x),
            bodies_kept(base, activities_view(activities@)),
            wired(activities_view(activities@), initial@.successors, end@.predecessors),
            followed_upto(base, activities_view(activities@), n as int),
            forall|x: int|
                0 <= x < n ==> (#[trigger] activities_view(activities@)[x]).predecessors.len() >= 1,
            forall|x: int|
                0 <= x < j ==> (#[trigger] activities_view(activities@)[x]).successors.len() >= 1,
            j == n ==> end@.predecessors.len() >= 1,
        decreases n - j,
    {
        let ghost now = activities_view(activities@);
        assert(now[j as int] == activities@[j as int]@);
        assert(body_kept(base[j as int], now[j as int]));
        let last: bool = j + 1 == n;
        let tied: bool = if last {
            true
        } else {
            assert(now[j + 1] == activities@[j + 1]@);
            assert(body_kept(base[j + 1], now[j + 1]));
            activities[j].start_time > activities[j + 1].start_time
        };
        if tied {
            tie_sink(&mut activities, &mut end, j, Ghost(base), Ghost(initial@.successors));
            proof {
                let after = activities_view(activities@);
                assert forall|x: int|
                    0 <= x < n && x < after.len() - 1 && base[x].start_time < base[x
                        + 1].start_time implies (#[trigger] after[x]).successors.len() >= 1 by {
                    assert(after[x].successors.len() >= now[x].successors.len());
                }
                assert forall|x: int| 0 <= x < n implies (#[trigger] after[x]).predecessors.len()
                    >= 1 by {
                    assert(after[x].predecessors == now[x].predecessors);
                }
                assert forall|x: int| 0 <= x < j + 1 implies (#[trigger] after[x]).successors.len()
                    >= 1 by {
                    if x < j {
                        assert(after[x].successors.len() >= now[x].successors.len());
                    }
                }
            }
        } else {
            assert(steps_on(base, j as int));
            assert(now[j as int].successors.len() >= 1);
        }
        j += 1;
    }
    let ghost net = activities_view(activities@);
    let ghost source = initial@;
    let ghost sink = end@;
    proof {
        assert forall|x: int| 0 <= x < base.len() implies {
            &&& (#[trigger] base[x]).id == x + 2
            &&& 0 <= base[x].start_time
            &&& base[x].start_time + base[x].duration <= random_cost
            &&& supplied_by(base[x], units)
        } by {}
        lemma_assembled(source, net, sink, base, units, random_cost as int);
    }
    activities.insert(0, initial);
    activities.push(end);
    let project = Project::new(activities, resources);
    proof {
        let full = assembled(source, net, sink);
        assert(project@.activities =~= full);
        assert(project@.resources == units);
        assert(full[0] == source && full.last() == sink);
        assert(dummies_numbered(full, random_activities as int));
        assert(gridded(full, random_cost as int, random_activities as int, ends, lengths)) by {
            assert forall|i: int| 0 <= i < random_activities implies {
                let a = #[trigger] full[i + 1];
                let column = i % (ends.len() as int);
                &&& a.id == i + 2
                &&& a.parent == -1
                &&& a.name == decimal((i + 2) as nat)
                &&& a.start_time == ends[column] - lengths[column]
                &&& a.duration == if i == random_activities - 1 {
                    random_cost - a.start_time
                } else {
                    lengths[column] as int
                }
            } by {
                assert(full[i + 1] == net[i]);
                assert(body_kept(base[i], net[i]));
            }
        }
    }
    Ok(project)
}

} // verus!
