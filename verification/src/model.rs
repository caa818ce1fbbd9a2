//! The mathematical model of a project network: plain-value views of the
//! records and the functions over them that the contracts speak of.

use vstd::prelude::*;
use core::cmp::Ordering;

verus! {

/// Start time of an activity that has not been placed yet.
pub const UNPLANNED: i32 = -1;

/// What a renewable resource is to the contracts.
pub struct ResourceView {
    pub id: u32,
    pub name: Seq<char>,
    pub capacity: u32,
}

/// What a usage record is to the contracts.
pub struct UsageView {
    pub resource: ResourceView,
    pub usage: u32,
}

/// What an activity is to the contracts.
pub struct ActivityView {
    pub id: u32,
    pub parent: i32,
    pub name: Seq<char>,
    pub predecessors: Seq<u32>,
    pub successors: Seq<u32>,
    pub supplies: Seq<UsageView>,
    pub duration: u32,
    pub start_time: i32,
}

/// What a project is to the contracts.
pub struct ProjectView {
    pub activities: Seq<ActivityView>,
    pub resources: Seq<ResourceView>,
}

/// The greater of two numbers.
pub open spec fn max_of(a: int, b: int) -> int {
    if a >= b {
        a
    } else {
        b
    }
}

/// Some activity of `acts` carries the identity `id`.
pub open spec fn has_id(acts: Seq<ActivityView>, id: u32) -> bool {
    exists|i: int| 0 <= i < acts.len() && (#[trigger] acts[i]).id == id
}

/// `i` is the first place in `acts` at which the identity `id` stands.
pub open spec fn first_at(acts: Seq<ActivityView>, id: u32, i: int) -> bool {
    &&& 0 <= i < acts.len()
    &&& acts[i].id == id
    &&& forall|j: int| 0 <= j < i ==> (#[trigger] acts[j]).id != id
}

/// The first place at which `id` stands, or -1 where it stands nowhere.
pub open spec fn position(acts: Seq<ActivityView>, id: u32) -> int {
    if exists|i: int| first_at(acts, id, i) {
        choose|i: int| first_at(acts, id, i)
    } else {
        -1
    }
}

/// No identity occurs twice.
pub open spec fn distinct_ids(acts: Seq<ActivityView>) -> bool {
    forall|i: int, j: int|
        0 <= i < j < acts.len() ==> (#[trigger] acts[i]).id != (#[trigger] acts[j]).id
}

/// An identity has one first place at most.
pub proof fn lemma_first_at_unique(acts: Seq<ActivityView>, id: u32, i: int, j: int)
    requires
        first_at(acts, id, i),
        first_at(acts, id, j),
    ensures
        i == j,
{
    if i < j {
        assert(acts[i].id != id);
    } else if j < i {
        assert(acts[j].id != id);
    }
}

/// A place that meets `first_at` is the position.
pub proof fn lemma_position_is(acts: Seq<ActivityView>, id: u32, i: int)
    requires
        first_at(acts, id, i),
    ensures
        position(acts, id) == i,
{
    let p = choose|k: int| first_at(acts, id, k);
    lemma_first_at_unique(acts, id, i, p);
}

/// Where no activity carries `id`, the position is -1; else it is the first such place.
pub proof fn lemma_position(acts: Seq<ActivityView>, id: u32)
    ensures
        has_id(acts, id) ==> first_at(acts, id, position(acts, id)),
        !has_id(acts, id) ==> position(acts, id) == -1,
{
    if has_id(acts, id) {
        let w = choose|i: int| 0 <= i < acts.len() && (#[trigger] acts[i]).id == id;
        lemma_first_exists(acts, id, w);
    } else {
        if exists|i: int| first_at(acts, id, i) {
            let i = choose|i: int| first_at(acts, id, i);
            assert(acts[i].id == id);
        }
    }
}

proof fn lemma_first_exists(acts: Seq<ActivityView>, id: u32, w: int)
    requires
        0 <= w < acts.len(),
        acts[w].id == id,
    ensures
        exists|i: int| first_at(acts, id, i),
    decreases w,
{
    if forall|j: int| 0 <= j < w ==> (#[trigger] acts[j]).id != id {
        assert(first_at(acts, id, w));
    } else {
        let j = choose|j: int| 0 <= j < w && (#[trigger] acts[j]).id == id;
        lemma_first_exists(acts, id, j);
    }
}

/// With distinct identities every place is the position of its own identity.
pub proof fn lemma_position_distinct(acts: Seq<ActivityView>, i: int)
    requires
        distinct_ids(acts),
        0 <= i < acts.len(),
    ensures
        position(acts, acts[i].id) == i,
{
    assert forall|j: int| 0 <= j < i implies (#[trigger] acts[j]).id != acts[i].id by {}
    lemma_position_is(acts, acts[i].id, i);
}

/// The activity has been placed.
pub open spec fn is_planned(a: ActivityView) -> bool {
    a.start_time != UNPLANNED
}

/// The instant at which a placed activity ends.
pub open spec fn finish(a: ActivityView) -> int {
    a.start_time + a.duration
}

/// Every identity in `ids` is carried by some activity of `acts`.
pub open spec fn all_known(acts: Seq<ActivityView>, ids: Seq<u32>) -> bool {
    forall|k: int| 0 <= k < ids.len() ==> has_id(acts, #[trigger] ids[k])
}

/// Every activity named in `ids` has been placed.
pub open spec fn all_planned(acts: Seq<ActivityView>, ids: Seq<u32>) -> bool {
    forall|k: int| 0 <= k < ids.len() ==> is_planned(acts[position(acts, #[trigger] ids[k])])
}

/// Every activity named in `ids` ends at an instant that an `i32` holds.
pub open spec fn finishes_fit(acts: Seq<ActivityView>, ids: Seq<u32>) -> bool {
    forall|k: int|
        0 <= k < ids.len() ==> finish(acts[position(acts, #[trigger] ids[k])]) <= i32::MAX
}

/// The latest end among the activities named in `preds`, and at least `floor`.
pub open spec fn earliest_start(acts: Seq<ActivityView>, preds: Seq<u32>, floor: int) -> int
    decreases preds.len(),
{
    if preds.len() == 0 {
        floor
    } else {
        max_of(
            finish(acts[position(acts, preds.last())]),
            earliest_start(acts, preds.drop_last(), floor),
        )
    }
}

/// The units of resource `rid` that the usage records `supplies` hold together.
pub open spec fn usage_of(supplies: Seq<UsageView>, rid: u32) -> int
    decreases supplies.len(),
{
    if supplies.len() == 0 {
        0
    } else {
        usage_of(supplies.drop_last(), rid) + if supplies.last().resource.id == rid {
            supplies.last().usage as int
        } else {
            0
        }
    }
}

/// A placed activity holds its resources at instant `t`: it starts at `t`, or
/// started before `t` and ends after it.
pub open spec fn active_at(a: ActivityView, t: int) -> bool {
    is_planned(a) && (a.start_time == t || (a.start_time < t && t < finish(a)))
}

/// The units of resource `rid` held at instant `t` by the activities of
/// `acts` other than the one with identity `skip`.
pub open spec fn demand(acts: Seq<ActivityView>, skip: u32, t: int, rid: u32) -> int
    decreases acts.len(),
{
    if acts.len() == 0 {
        0
    } else {
        demand(acts.drop_last(), skip, t, rid) + if acts.last().id != skip && active_at(
            acts.last(),
            t,
        ) {
            usage_of(acts.last().supplies, rid)
        } else {
            0
        }
    }
}

/// Starting `a` at `t` would take more of the resource of its `k`-th usage
/// record than there is.
pub open spec fn overloads(acts: Seq<ActivityView>, a: ActivityView, t: int, k: int) -> bool {
    demand(acts, a.id, t, a.supplies[k].resource.id) + usage_of(
        a.supplies,
        a.supplies[k].resource.id,
    ) > a.supplies[k].resource.capacity
}

/// Starting `a` at `t` would take more of some resource than there is.
pub open spec fn conflict(acts: Seq<ActivityView>, a: ActivityView, t: int) -> bool {
    exists|k: int| 0 <= k < a.supplies.len() && #[trigger] overloads(acts, a, t, k)
}

/// `acts` with the start time of the activity at place `i` set to `time`.
pub open spec fn with_start(acts: Seq<ActivityView>, i: int, time: i32) -> Seq<ActivityView> {
    acts.update(i, ActivityView { start_time: time, ..acts[i] })
}

/// Usages are not negative.
pub proof fn lemma_usage_nonneg(supplies: Seq<UsageView>, rid: u32)
    ensures
        usage_of(supplies, rid) >= 0,
    decreases supplies.len(),
{
    if supplies.len() > 0 {
        lemma_usage_nonneg(supplies.drop_last(), rid);
    }
}

/// Demands are not negative.
pub proof fn lemma_demand_nonneg(acts: Seq<ActivityView>, skip: u32, t: int, rid: u32)
    ensures
        demand(acts, skip, t, rid) >= 0,
    decreases acts.len(),
{
    if acts.len() > 0 {
        lemma_demand_nonneg(acts.drop_last(), skip, t, rid);
        lemma_usage_nonneg(acts.last().supplies, rid);
    }
}

/// The arcs of the network lead to activities of the network.
pub open spec fn arcs_known(acts: Seq<ActivityView>) -> bool {
    forall|i: int|
        0 <= i < acts.len() ==> all_known(acts, (#[trigger] acts[i]).predecessors) && all_known(
            acts,
            acts[i].successors,
        )
}

/// The activity with identity `u` names `v` as a successor.
pub open spec fn names_successor(acts: Seq<ActivityView>, u: u32, v: u32) -> bool {
    acts[position(acts, u)].successors.contains(v)
}

/// The activity with identity `v` names `u` as a predecessor.
pub open spec fn names_predecessor(acts: Seq<ActivityView>, v: u32, u: u32) -> bool {
    acts[position(acts, v)].predecessors.contains(u)
}

/// Each arc is recorded at both of its ends.
pub open spec fn arcs_mirrored(acts: Seq<ActivityView>) -> bool {
    &&& forall|i: int, k: int|
        0 <= i < acts.len() && 0 <= k < acts[i].predecessors.len() ==> names_successor(
            acts,
            #[trigger] acts[i].predecessors[k],
            acts[i].id,
        )
    &&& forall|i: int, k: int|
        0 <= i < acts.len() && 0 <= k < acts[i].successors.len() ==> names_predecessor(
            acts,
            #[trigger] acts[i].successors[k],
            acts[i].id,
        )
}

/// `rank` grows along every arc.
pub open spec fn respects(acts: Seq<ActivityView>, rank: Seq<nat>) -> bool {
    &&& rank.len() == acts.len()
    &&& forall|i: int, k: int|
        0 <= i < acts.len() && 0 <= k < acts[i].predecessors.len() ==> rank[position(
            acts,
            #[trigger] acts[i].predecessors[k],
        )] < rank[i]
}

/// The precedence relation has no cycle.
pub open spec fn acyclic(acts: Seq<ActivityView>) -> bool {
    exists|rank: Seq<nat>| respects(acts, rank)
}

/// An activity that takes no time and no resource.
pub open spec fn is_dummy(a: ActivityView) -> bool {
    a.duration == 0 && a.supplies.len() == 0
}

/// The first activity is the only source and the last the only sink, and
/// both are dummies.
pub open spec fn has_dummies(acts: Seq<ActivityView>) -> bool {
    &&& acts.len() >= 2
    &&& is_dummy(acts[0])
    &&& is_dummy(acts.last())
    &&& forall|i: int| 0 <= i < acts.len() ==> ((#[trigger] acts[i]).predecessors.len() == 0 <==> i == 0)
    &&& forall|i: int|
        0 <= i < acts.len() ==> ((#[trigger] acts[i]).successors.len() == 0 <==> i == acts.len() - 1)
}

/// Some resource of `resources` has the identity and the capacity of `r`.
pub open spec fn declared(resources: Seq<ResourceView>, r: ResourceView) -> bool {
    exists|j: int|
        0 <= j < resources.len() && (#[trigger] resources[j]).id == r.id && resources[j].capacity
            == r.capacity
}

/// The resources carry distinct identities; every usage record names a
/// resource of the project, and no activity takes more of a resource than
/// there is.
pub open spec fn supplies_fit(p: ProjectView) -> bool {
    &&& forall|i: int, j: int|
        0 <= i < j < p.resources.len() ==> (#[trigger] p.resources[i]).id != (
        #[trigger] p.resources[j]).id
    &&& forall|i: int, k: int|
        0 <= i < p.activities.len() && 0 <= k < p.activities[i].supplies.len() ==> {
            let s = #[trigger] p.activities[i].supplies[k];
            declared(p.resources, s.resource) && usage_of(p.activities[i].supplies, s.resource.id)
                <= s.resource.capacity
        }
}

/// The instants that the activities can take together: every activity its
/// duration, and one instant more, by which it may have to step past an
/// activity that takes no time.
pub open spec fn horizon(acts: Seq<ActivityView>) -> int
    decreases acts.len(),
{
    if acts.len() == 0 {
        0
    } else {
        horizon(acts.drop_last()) + acts.last().duration + 1
    }
}

/// However the activities are ordered, none starts later than an `i32`
/// holds: the instants that they can take together are no more.
pub open spec fn within_horizon(acts: Seq<ActivityView>) -> bool {
    horizon(acts) <= i32::MAX
}

/// The project is a network: the dummies at its ends, distinct identities,
/// arcs that lead to its own activities and are recorded at both ends, no
/// cycle, and usages that its resources can meet.
pub open spec fn schema(p: ProjectView) -> bool {
    &&& has_dummies(p.activities)
    &&& distinct_ids(p.activities)
    &&& arcs_known(p.activities)
    &&& arcs_mirrored(p.activities)
    &&& acyclic(p.activities)
    &&& supplies_fit(p)
}

/// The project is a network that a schedule can be built for.
pub open spec fn well_formed(p: ProjectView) -> bool {
    schema(p) && within_horizon(p.activities)
}

/// `acts` with every start time taken back.
pub open spec fn cleared(acts: Seq<ActivityView>) -> Seq<ActivityView> {
    Seq::new(acts.len(), |i: int| ActivityView { start_time: UNPLANNED, ..acts[i] })
}

/// How the identity `a` stands to the identity `b`.
pub open spec fn order_of(a: u32, b: u32) -> Ordering {
    if a < b {
        Ordering::Less
    } else if a == b {
        Ordering::Equal
    } else {
        Ordering::Greater
    }
}

} // verus!
