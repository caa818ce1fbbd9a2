//! The project network and the primitives that a schedule is built from.

use vstd::prelude::*;
use crate::activity::{activities_view, clone_supplies, contains_id, usages_view, Activity};
use crate::error::ScheduleError;
use crate::expansion::{
    chain, ends_of, expanded, expansible, is_end, lemma_offset_grows, linked, linked_chain, offset,
    span, split_of, starts_of, takes_time, unit, with_predecessors, with_successors, SubsView,
};
use crate::model::{
    all_known, all_planned, cleared, conflict, demand, earliest_start, finish, finishes_fit,
    first_at, has_id, is_planned, lemma_position, lemma_position_is, overloads, position, usage_of,
    with_start, ActivityView, ProjectView, ResourceView, UNPLANNED,
};
use crate::rn_resource::RnResource;
use crate::rn_resource_usage::RnResourceUsage;
use crate::text::{decimal, decimal_string};

verus! {

/// The project network: its activities, the source first and the sink last,
/// and the renewable resources they draw on.
#[derive(Debug)]
pub struct Project {
    pub activities: Vec<Activity>,
    pub resources: Vec<RnResource>,
}

/// A list of resources as plain values.
pub open spec fn resources_view(s: Seq<RnResource>) -> Seq<ResourceView> {
    Seq::new(s.len(), |i: int| s[i]@)
}

impl View for Project {
    type V = ProjectView;

    open spec fn view(&self) -> ProjectView {
        ProjectView {
            activities: activities_view(self.activities@),
            resources: resources_view(self.resources@),
        }
    }
}

/// Sums that only matter up to a capacity are kept below this bound.
pub const DEMAND_CAP: u64 = 0x1_0000_0000;

/// `x`, or the cap where `x` is above it.
pub open spec fn capped(x: int) -> int {
    if x >= DEMAND_CAP {
        DEMAND_CAP as int
    } else {
        x
    }
}

/// Adds two capped sums.
fn capped_sum(a: u64, b: u64) -> (r: u64)
    requires
        a <= DEMAND_CAP,
        b <= DEMAND_CAP,
    ensures
        r == capped(a + b),
{
    let s: u64 = a + b;
    if s >= DEMAND_CAP {
        DEMAND_CAP
    } else {
        s
    }
}

/// The units of resource `rid` in `supplies`, capped.
pub(crate) fn usage_total(supplies: &Vec<RnResourceUsage>, rid: u32) -> (r: u64)
    ensures
        r == capped(usage_of(crate::activity::usages_view(supplies@), rid)),
{
    let ghost view = crate::activity::usages_view(supplies@);
    let mut total: u64 = 0;
    let mut i: usize = 0;
    while i < supplies.len()
        invariant
            i <= supplies.len(),
            view == crate::activity::usages_view(supplies@),
            total == capped(usage_of(view.take(i as int), rid)),
        decreases supplies.len() - i,
    {
        proof {
            assert(view.take(i + 1).drop_last() == view.take(i as int));
            crate::model::lemma_usage_nonneg(view.take(i as int), rid);
        }
        if supplies[i].resource.id == rid {
            total = capped_sum(total, supplies[i].usage as u64);
        }
        i += 1;
    }
    assert(view.take(supplies.len() as int) == view);
    total
}

impl Project {
    /// A project of these activities and resources.
    pub fn new(activities: Vec<Activity>, resources: Vec<RnResource>) -> (p: Project)
        ensures
            p.activities == activities,
            p.resources == resources,
    {
        Project { activities, resources }
    }

    /// The first place at which an activity with identity `id` stands.
    pub fn find(&self, id: u32) -> (r: Option<usize>)
        ensures
            match r {
                Some(i) => first_at(self@.activities, id, i as int),
                None => !has_id(self@.activities, id),
            },
            r == (if has_id(self@.activities, id) {
                Some(position(self@.activities, id) as usize)
            } else {
                None
            }),
    {
        let mut i: usize = 0;
        while i < self.activities.len()
            invariant
                i <= self.activities.len(),
                forall|j: int| 0 <= j < i ==> (#[trigger] self@.activities[j]).id != id,
            decreases self.activities.len() - i,
        {
            if self.activities[i].id == id {
                proof {
                    assert(self@.activities[i as int].id == id);
                    lemma_position_is(self@.activities, id, i as int);
                }
                return Some(i);
            }
            i += 1;
        }
        proof {
            lemma_position(self@.activities, id);
        }
        None
    }

    /// Takes every start time back.
    pub fn clear_times(&mut self)
        ensures
            final(self)@.activities == cleared(old(self)@.activities),
            final(self)@.resources == old(self)@.resources,
    {
        let ghost before = self@.activities;
        let mut i: usize = 0;
        while i < self.activities.len()
            invariant
                i <= self.activities.len(),
                self@.activities.len() == before.len(),
                forall|j: int| 0 <= j < i ==> #[trigger] self@.activities[j] == cleared(before)[j],
                forall|j: int| i <= j < before.len() ==> #[trigger] self@.activities[j] == before[j],
                self@.resources == old(self)@.resources,
            decreases self.activities.len() - i,
        {
            let ghost prev = self@;
            self.activities[i].start_time = UNPLANNED;
            assert(self@.resources =~= prev.resources);
            assert(self@.activities =~= with_start(prev.activities, i as int, UNPLANNED));
            i += 1;
        }
        assert(self@.activities =~= cleared(before));
    }

    /// Gives the activity `activity` of this project the start time `time`.
    pub fn set_time(&mut self, activity: Activity, time: i32)
        requires
            has_id(old(self)@.activities, activity.id),
        ensures
            final(self)@.activities == with_start(
                old(self)@.activities,
                position(old(self)@.activities, activity.id),
                time,
            ),
            final(self)@.resources == old(self)@.resources,
    {
        let found = self.find(activity.id);
        let index: usize = found.unwrap();
        self.activities[index].start_time = time;
        assert(self@.activities =~= with_start(old(self)@.activities, index as int, time));
        assert(self@.resources =~= old(self)@.resources);
    }

    /// Whether every predecessor of `activity` has been placed.
    pub fn predecessors_planned(&self, activity: Activity) -> (r: bool)
        requires
            all_known(self@.activities, activity@.predecessors),
        ensures
            r == all_planned(self@.activities, activity@.predecessors),
    {
        let mut k: usize = 0;
        while k < activity.predecessors.len()
            invariant
                k <= activity.predecessors.len(),
                all_known(self@.activities, activity@.predecessors),
                forall|j: int|
                    0 <= j < k ==> is_planned(
                        self@.activities[position(
                            self@.activities,
                            #[trigger] activity@.predecessors[j],
                        )],
                    ),
            decreases activity.predecessors.len() - k,
        {
            let found = self.find(activity.predecessors[k]);
            let index: usize = found.unwrap();
            if self.activities[index].start_time == UNPLANNED {
                return false;
            }
            k += 1;
        }
        true
    }

    /// The earliest instant, not before `time`, at which every predecessor
    /// of `activity` has ended.
    pub fn get_time_planning(&self, activity: Activity, time: i32) -> (r: i32)
        requires
            all_known(self@.activities, activity@.predecessors),
            all_planned(self@.activities, activity@.predecessors),
            finishes_fit(self@.activities, activity@.predecessors),
        ensures
            r == earliest_start(self@.activities, activity@.predecessors, time as int),
    {
        let ghost acts = self@.activities;
        let ghost preds = activity@.predecessors;
        let mut latest: i64 = time as i64;
        let mut k: usize = 0;
        while k < activity.predecessors.len()
            invariant
                k <= activity.predecessors.len(),
                acts == self@.activities,
                preds == activity@.predecessors,
                all_known(acts, preds),
                finishes_fit(acts, preds),
                i32::MIN <= latest <= i32::MAX,
                latest == earliest_start(acts, preds.take(k as int), time as int),
            decreases activity.predecessors.len() - k,
        {
            let found = self.find(activity.predecessors[k]);
            let index: usize = found.unwrap();
            let end: i64 = self.activities[index].start_time as i64
                + self.activities[index].duration as i64;
            proof {
                assert(preds.take(k + 1).drop_last() == preds.take(k as int));
                assert(preds.take(k + 1).last() == preds[k as int]);
                assert(end == finish(acts[position(acts, preds[k as int])]));
            }
            if end > latest {
                latest = end;
            }
            k += 1;
        }
        assert(preds.take(activity.predecessors.len() as int) == preds);
        latest as i32
    }

    /// As `get_time_planning`, but refuses where a predecessor is missing
    /// from the project or has not been placed.
    pub fn earliest_start(&self, activity: &Activity, floor: i32) -> (r: Result<i32, ScheduleError>)
        requires
            finishes_fit(self@.activities, activity@.predecessors),
        ensures
            r == (if !all_known(self@.activities, activity@.predecessors) {
                Err::<i32, ScheduleError>(ScheduleError::SchemaViolation)
            } else if !all_planned(self@.activities, activity@.predecessors) {
                Err(ScheduleError::NotPlanned)
            } else {
                Ok(earliest_start(self@.activities, activity@.predecessors, floor as int) as i32)
            }),
    {
        let ghost acts = self@.activities;
        let ghost preds = activity@.predecessors;
        let mut k: usize = 0;
        while k < activity.predecessors.len()
            invariant
                k <= activity.predecessors.len(),
                acts == self@.activities,
                preds == activity@.predecessors,
                forall|j: int| 0 <= j < k ==> has_id(acts, #[trigger] preds[j]),
            decreases activity.predecessors.len() - k,
        {
            if self.find(activity.predecessors[k]).is_none() {
                return Err(ScheduleError::SchemaViolation);
            }
            k += 1;
        }
        if !self.predecessors_planned(activity.clone()) {
            return Err(ScheduleError::NotPlanned);
        }
        Ok(self.get_time_planning(activity.clone(), floor))
    }

    /// The units of resource `rid` held at instant `time` by the placed
    /// activities other than `skip`, capped.
    fn demand_total(&self, skip: u32, time: i32, rid: u32) -> (r: u64)
        ensures
            r == capped(demand(self@.activities, skip, time as int, rid)),
    {
        let ghost acts = self@.activities;
        let mut total: u64 = 0;
        let mut i: usize = 0;
        while i < self.activities.len()
            invariant
                i <= self.activities.len(),
                acts == self@.activities,
                total == capped(demand(acts.take(i as int), skip, time as int, rid)),
            decreases self.activities.len() - i,
        {
            proof {
                assert(acts.take(i + 1).drop_last() == acts.take(i as int));
                crate::model::lemma_demand_nonneg(acts.take(i as int), skip, time as int, rid);
                crate::model::lemma_usage_nonneg(acts[i as int].supplies, rid);
            }
            let other = &self.activities[i];
            let start: i64 = other.start_time as i64;
            let end: i64 = start + other.duration as i64;
            let now: i64 = time as i64;
            if other.id != skip && other.start_time != UNPLANNED && (start == now || (start < now
                && now < end)) {
                let held: u64 = usage_total(&other.supplies, rid);
                total = capped_sum(total, held);
            }
            i += 1;
        }
        assert(acts.take(self.activities.len() as int) == acts);
        total
    }

    /// Whether starting `activity` at `time` would take more of some resource
    /// than its capacity, given the activities placed so far.
    pub fn resource_conflict(&self, activity: Activity, time: i32) -> (r: bool)
        ensures
            r == conflict(self@.activities, activity@, time as int),
    {
        let ghost acts = self@.activities;
        let ghost a = activity@;
        let mut k: usize = 0;
        while k < activity.supplies.len()
            invariant
                k <= activity.supplies.len(),
                acts == self@.activities,
                a == activity@,
                forall|j: int| 0 <= j < k ==> !overloads(acts, a, time as int, j),
            decreases activity.supplies.len() - k,
        {
            let rid: u32 = activity.supplies[k].resource.id;
            let others: u64 = self.demand_total(activity.id, time, rid);
            let own: u64 = usage_total(&activity.supplies, rid);
            proof {
                crate::model::lemma_demand_nonneg(acts, a.id, time as int, rid);
                crate::model::lemma_usage_nonneg(a.supplies, rid);
                assert(a.supplies[k as int].resource.id == rid);
            }
            if others + own > activity.supplies[k].resource.capacity as u64 {
                assert(overloads(acts, a, time as int, k as int));
                return true;
            }
            k += 1;
        }
        false
    }
}

/// Copies a list of activities.
pub fn clone_activities(v: &Vec<Activity>) -> (r: Vec<Activity>)
    ensures
        activities_view(r@) == activities_view(v@),
{
    let mut r: Vec<Activity> = Vec::new();
    let mut i: usize = 0;
    while i < v.len()
        invariant
            i <= v.len(),
            r@.len() == i,
            forall|j: int| 0 <= j < i ==> (#[trigger] r@[j])@ == v@[j]@,
        decreases v.len() - i,
    {
        r.push(v[i].clone());
        i += 1;
    }
    assert(activities_view(r@) =~= activities_view(v@));
    r
}

/// Copies a list of resources.
pub fn clone_resources(v: &Vec<RnResource>) -> (r: Vec<RnResource>)
    ensures
        r@ == v@,
{
    let mut r: Vec<RnResource> = Vec::new();
    let mut i: usize = 0;
    while i < v.len()
        invariant
            i <= v.len(),
            r@ == v@.take(i as int),
        decreases v.len() - i,
    {
        r.push(v[i].clone());
        assert(v@.take(i + 1) == v@.take(i as int).push(v@[i as int]));
        i += 1;
    }
    assert(v@.take(v.len() as int) == v@);
    r
}

impl Clone for Project {
    fn clone(&self) -> (r: Self)
        ensures
            r@ == self@,
    {
        Project {
            activities: clone_activities(&self.activities),
            resources: clone_resources(&self.resources),
        }
    }
}

/// An activity and the unit activities that take its place.
#[derive(Debug)]
pub struct ActivitySubs(pub Activity, pub Vec<Activity>);

impl View for ActivitySubs {
    type V = SubsView;

    open spec fn view(&self) -> SubsView {
        SubsView { origin: self.0@, subs: activities_view(self.1@) }
    }
}

/// A list of activities with their chains as plain values.
pub open spec fn subs_view(s: Seq<ActivitySubs>) -> Seq<SubsView> {
    Seq::new(s.len(), |i: int| s[i]@)
}

/// A unit activity with identity `id` that stands alone.
fn lone_unit(id: u32, parent: i32, supplies: Vec<RnResourceUsage>, duration: u32) -> (a: Activity)
    ensures
        a@ == (ActivityView {
            id,
            parent,
            name: decimal(id as nat),
            predecessors: Seq::empty(),
            successors: Seq::empty(),
            supplies: usages_view(supplies@),
            duration,
            start_time: UNPLANNED,
        }),
{
    let a = Activity::new(
        id,
        parent,
        decimal_string(id as u64),
        Vec::new(),
        Vec::new(),
        supplies,
        duration,
        UNPLANNED,
    );
    assert(a@.predecessors =~= Seq::empty());
    assert(a@.successors =~= Seq::empty());
    a
}

impl Project {
    /// Every activity with the chain of unit activities that takes its
    /// place: one unit of duration 0 for each dummy, and for every other
    /// activity as many units of duration 1 as its duration, each after the
    /// one before it.
    pub fn split_activities(&self) -> (pairs: Vec<ActivitySubs>)
        requires
            expansible(self@.activities),
        ensures
            subs_view(pairs@) == split_of(self@.activities),
    {
        let ghost acts = self@.activities;
        let n: usize = self.activities.len();
        let mut pairs: Vec<ActivitySubs> = Vec::new();
        let mut count: u32 = 2;
        proof {
            lemma_offset_grows(acts, 1, n as int);
            assert(offset(acts, 1) == offset(acts, 0) + span(acts, 0));
        }
        let initial: Activity = self.activities[0].clone();
        let mut first_chain: Vec<Activity> = Vec::new();
        first_chain.push(lone_unit(1, 1, Vec::new(), 0));
        assert(activities_view(first_chain@) =~= chain(acts, 0, 1)) by {
            assert(first_chain@[0]@.supplies =~= Seq::empty());
        }
        pairs.push(ActivitySubs(initial, first_chain));
        let mut i: usize = 1;
        while i < n - 1
            invariant
                1 <= i <= n - 1,
                n == acts.len(),
                acts == self@.activities,
                expansible(acts),
                pairs@.len() == i,
                forall|k: int| 0 <= k < i ==> (#[trigger] pairs@[k])@ == split_of(acts)[k],
                count == offset(acts, i as int) + 1,
            decreases n - i,
        {
            let activity: Activity = self.activities[i].clone();
            let mut subs: Vec<Activity> = Vec::new();
            let mut j: u32 = 0;
            proof {
                lemma_offset_grows(acts, i as int + 1, n as int - 1);
                lemma_offset_grows(acts, i as int, n as int - 1);
                assert(offset(acts, n as int) == offset(acts, n as int - 1) + span(
                    acts,
                    n as int - 1,
                ));
                assert(offset(acts, i as int + 1) == offset(acts, i as int) + span(acts, i as int));
                assert(activity@ == acts[i as int]);
            }
            while j < activity.duration
                invariant
                    0 < i < n - 1,
                    n == acts.len(),
                    j <= activity.duration,
                    0 <= offset(acts, i as int),
                    offset(acts, i as int) + activity.duration + 1 <= u32::MAX,
                    activity@ == acts[i as int],
                    acts[i as int].id <= i32::MAX,
                    count == offset(acts, i as int) + j + 1,
                    activities_view(subs@) == chain(acts, i as int, j as int),
                decreases activity.duration - j,
            {
                let ghost before = activities_view(subs@);
                assert(before.len() == subs@.len());
                let mut subactivity: Activity = lone_unit(
                    count,
                    activity.id as i32,
                    clone_supplies(&activity.supplies),
                    1,
                );
                count = count + 1;
                let ghost fresh = subactivity@;
                let ghost mut tied = subactivity@;
                if j > 0 {
                    let mut anteccessor: Activity = subs.pop().unwrap();
                    assert(anteccessor@ == before[j - 1]);
                    assert(anteccessor@ == unit(acts, i as int, j - 1, j as int));
                    subactivity.add_anteccessor(anteccessor.id);
                    anteccessor.add_successor(subactivity.id);
                    assert(subactivity@.predecessors =~= seq![(fresh.id - 1) as u32]);
                    assert(anteccessor@.successors =~= seq![fresh.id]);
                    proof {
                        tied = anteccessor@;
                    }
                    subs.push(anteccessor);
                    subs.push(subactivity);
                } else {
                    subs.push(subactivity);
                }
                proof {
                    let now = activities_view(subs@);
                    let want = chain(acts, i as int, j as int + 1);
                    assert(now.len() == want.len());
                    assert forall|o: int| 0 <= o < now.len() implies now[o] == want[o] by {
                        if o < j - 1 {
                            assert(now[o] == before[o]);
                            assert(before[o] == unit(acts, i as int, o, j as int));
                        } else if o == j - 1 {
                            assert(before[o] == unit(acts, i as int, o, j as int));
                            assert(now[o] == tied);
                            assert(fresh.id == offset(acts, i as int) + j + 1);
                            assert(want[o].successors =~= seq![fresh.id]);
                            assert(now[o].successors =~= want[o].successors);
                        } else {
                            assert(now[o].predecessors =~= want[o].predecessors);
                            assert(now[o].successors =~= want[o].successors);
                        }
                    }
                    assert(now =~= want);
                }
                j = j + 1;
            }
            pairs.push(ActivitySubs(activity, subs));
            i += 1;
        }
        proof {
            lemma_offset_grows(acts, n as int - 1, n as int);
            assert(offset(acts, n as int) == offset(acts, n as int - 1) + span(
                acts,
                n as int - 1,
            ));
        }
        let last: Activity = self.activities[n - 1].clone();
        assert(last@ == acts[n as int - 1]);
        let mut last_subactivity: Activity = lone_unit(count, -1, Vec::new(), 0);
        last_subactivity.parent = last.id as i32;
        let mut last_chain: Vec<Activity> = Vec::new();
        last_chain.push(last_subactivity);
        assert(activities_view(last_chain@) =~= chain(acts, n as int - 1, 1)) by {
            assert(last_chain@[0]@.supplies =~= Seq::empty());
        }
        pairs.push(ActivitySubs(last, last_chain));
        assert(subs_view(pairs@) =~= split_of(acts));
        pairs
    }
}

/// Every chain has a unit activity.
pub open spec fn chains_nonempty(pairs: Seq<SubsView>) -> bool {
    forall|i: int| 0 <= i < pairs.len() ==> (#[trigger] pairs[i]).subs.len() > 0
}

impl Project {
    /// Ties the chains into one network: the first unit activity of each
    /// chain comes after the last of the chains of the origin's
    /// predecessors, the last before the first of the chains of the origin's
    /// successors. The result holds the chains one after the other.
    pub fn set_neighbor_subactivities(&self, pair_activities: Vec<ActivitySubs>) -> (r: Vec<
        Activity,
    >)
        requires
            chains_nonempty(subs_view(pair_activities@)),
        ensures
            activities_view(r@) == linked(
                subs_view(pair_activities@),
                pair_activities@.len() as int,
            ),
    {
        let ghost pairs = subs_view(pair_activities@);
        let n: usize = pair_activities.len();
        let mut subactivities: Vec<Activity> = Vec::new();
        let mut i: usize = 0;
        assert(activities_view(subactivities@) =~= linked(pairs, 0));
        while i < n
            invariant
                i <= n,
                n == pair_activities@.len(),
                pairs == subs_view(pair_activities@),
                chains_nonempty(pairs),
                activities_view(subactivities@) == linked(pairs, i as int),
            decreases n - i,
        {
            let activity: &Activity = &pair_activities[i].0;
            let mut subs: Vec<Activity> = clone_activities(&pair_activities[i].1);
            let ghost chain_view = pairs[i as int].subs;
            assert(pairs[i as int] == pair_activities@[i as int]@);
            assert(chain_view.len() > 0);
            assert(activities_view(subs@).len() == subs@.len());
            let mut first: Activity = subs.remove(0);
            assert(first@ == chain_view[0]);
            let mut k: usize = 0;
            while k < n
                invariant
                    k <= n,
                    n == pair_activities@.len(),
                    pairs == subs_view(pair_activities@),
                    chains_nonempty(pairs),
                    activity@ == pairs[i as int].origin,
                    first@ == with_predecessors(
                        chain_view[0],
                        ends_of(pairs, activity@.predecessors, k as int),
                    ),
                decreases n - k,
            {
                assert(pairs[k as int] == pair_activities@[k as int]@);
                assert(pairs[k as int].subs.len() > 0);
                if contains_id(&activity.predecessors, pair_activities[k].0.id) {
                    let chain_k: &Vec<Activity> = &pair_activities[k].1;
                    assert(activities_view(chain_k@).len() == chain_k@.len());
                    let last_anteccessor: &Activity = &chain_k[chain_k.len() - 1];
                    assert(last_anteccessor@ == pairs[k as int].subs.last());
                    let ghost prev = first@;
                    first.add_anteccessor(last_anteccessor.id);
                    assert(first@.predecessors =~= chain_view[0].predecessors + ends_of(
                        pairs,
                        activity@.predecessors,
                        k as int + 1,
                    ));
                }
                k += 1;
            }
            let ghost entered_first = first@;
            subs.insert(0, first);
            let ghost entered = activities_view(subs@);
            assert(entered =~= chain_view.update(0, entered_first));
            let mut last: Activity = subs.pop().unwrap();
            assert(last@ == entered.last());
            let ghost body = activities_view(subs@);
            let mut k: usize = 0;
            while k < n
                invariant
                    k <= n,
                    n == pair_activities@.len(),
                    pairs == subs_view(pair_activities@),
                    chains_nonempty(pairs),
                    activity@ == pairs[i as int].origin,
                    last@ == with_successors(
                        entered.last(),
                        starts_of(pairs, activity@.successors, k as int),
                    ),
                decreases n - k,
            {
                assert(pairs[k as int] == pair_activities@[k as int]@);
                assert(pairs[k as int].subs.len() > 0);
                if contains_id(&activity.successors, pair_activities[k].0.id) {
                    let chain_k: &Vec<Activity> = &pair_activities[k].1;
                    assert(activities_view(chain_k@).len() == chain_k@.len());
                    let first_successor: &Activity = &chain_k[0];
                    assert(first_successor@ == pairs[k as int].subs.first());
                    last.add_successor(first_successor.id);
                    assert(last@.successors =~= entered.last().successors + starts_of(
                        pairs,
                        activity@.successors,
                        k as int + 1,
                    ));
                }
                k += 1;
            }
            subs.push(last);
            assert(activities_view(subs@) =~= linked_chain(pairs, i as int));
            let ghost so_far = activities_view(subactivities@);
            let ghost added = activities_view(subs@);
            subactivities.append(&mut subs);
            assert(activities_view(subactivities@) =~= so_far + added);
            i += 1;
        }
        subactivities
    }

    /// The unit-duration expansion of this project: every activity between
    /// the dummies is replaced by a chain of as many activities of duration
    /// 1 as its duration, each with the resource usages of its origin, and
    /// every arc leads from the last unit activity of its tail to the first
    /// of its head. The resources stay as they are.
    pub fn pre_emptive_project(&self) -> (r: Project)
        requires
            expansible(self@.activities),
            takes_time(self@.activities),
        ensures
            r@.activities == expanded(self@.activities),
            r@.resources == self@.resources,
    {
        let pair_activities: Vec<ActivitySubs> = self.split_activities();
        proof {
            let acts = self@.activities;
            let pairs = subs_view(pair_activities@);
            assert forall|i: int| 0 <= i < pairs.len() implies (#[trigger] pairs[i]).subs.len()
                > 0 by {
                assert(pairs[i].subs == chain(acts, i, span(acts, i)));
                if !is_end(acts, i) {
                    assert(acts[i].duration >= 1);
                }
            }
        }
        let subactivities: Vec<Activity> = self.set_neighbor_subactivities(pair_activities);
        let resources: Vec<RnResource> = clone_resources(&self.resources);
        Project { activities: subactivities, resources }
    }
}

impl Project {
    /// Whether `pre_emptive_project` can be asked for: the project has its
    /// two dummies, every activity between them takes time, the unit
    /// activities can be numbered within `u32` and the identities fit the
    /// parent field.
    pub fn can_expand(&self) -> (r: bool)
        ensures
            r == (expansible(self@.activities) && takes_time(self@.activities)),
    {
        let ghost acts = self@.activities;
        let n: usize = self.activities.len();
        if n < 2 {
            return false;
        }
        let mut total: u64 = 0;
        let mut i: usize = 0;
        while i < n
            invariant
                i <= n,
                2 <= n,
                n == acts.len(),
                acts == self@.activities,
                total == offset(acts, i as int),
                total <= u32::MAX,
                forall|j: int| 0 <= j < i ==> (#[trigger] acts[j]).id <= i32::MAX,
                forall|j: int| 0 < j < i && j < n - 1 ==> (#[trigger] acts[j]).duration >= 1,
            decreases n - i,
        {
            let a = &self.activities[i];
            assert(a@ == acts[i as int]);
            if a.id > 0x7fff_ffff {
                return false;
            }
            let interior: bool = i != 0 && i != n - 1;
            if interior && a.duration == 0 {
                return false;
            }
            let length: u64 = if interior {
                a.duration as u64
            } else {
                1
            };
            assert(length == span(acts, i as int));
            assert(offset(acts, i + 1) == offset(acts, i as int) + span(acts, i as int));
            if total + length > 0xffff_ffff {
                proof {
                    lemma_offset_grows(acts, i + 1, n as int);
                }
                return false;
            }
            total = total + length;
            i += 1;
        }
        true
    }
}

} // verus!
