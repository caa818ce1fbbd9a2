//! What holds of every schedule that the serial generation scheme builds.

use vstd::prelude::*;
use crate::model::{
    active_at, all_known, conflict, declared, demand, finish, has_id, is_planned, lemma_position,
    lemma_position_distinct, lemma_usage_nonneg, names_predecessor, names_successor, overloads,
    position, respects, schema, usage_of, well_formed, with_start, ActivityView, ProjectView,
    UsageView,
};
use crate::sa_state::{searchable, settled, StateView};
use crate::schedule::{
    candidate, comes_before, cursor, floor_of, lemma_earliest_bounds, lemma_placed_same,
    lemma_placed_start, lemma_same_network, lemma_schedule_unique, lemma_scheduled_network,
    lemma_scheduled_nonneg, ordered, ordered_upto, placed, same_network, scheduled, step_ok,
};
use crate::walk::{breadth_first, lemma_breadth_first_unique};

verus! {

/// The start times do not fall along the priority list.
pub proof fn lemma_times_monotone(s: StateView, i: int, j: int)
    requires
        scheduled(s.project.activities, s.planning, s.times),
        0 <= i <= j < s.times.len(),
    ensures
        0 <= s.times[i] <= s.times[j],
    decreases j - i,
{
    assert(step_ok(s.project.activities, s.planning, s.times, j));
    lemma_scheduled_nonneg(s.project.activities, s.planning, s.times, j);
    assert(step_ok(s.project.activities, s.planning, s.times, i));
    lemma_scheduled_nonneg(s.project.activities, s.planning, s.times, i);
    if i < j {
        lemma_times_monotone(s, i, j - 1);
    }
}

/// In a settled state every activity carries the start time that the list
/// of times holds at its place in the priority list.
pub proof fn lemma_carried_times(s: StateView, i: int)
    requires
        searchable(s),
        settled(s),
        0 <= i < s.planning.len(),
    ensures
        has_id(s.project.activities, s.planning[i]),
        0 <= position(s.project.activities, s.planning[i]) < s.project.activities.len(),
        s.project.activities[position(s.project.activities, s.planning[i])].start_time
            == s.times[i],
        s.project.activities[position(s.project.activities, s.planning[i])].id == s.planning[i],
{
    let acts = s.project.activities;
    lemma_placed_start(acts, s.planning, s.times, s.planning.len() as int);
    assert(has_id(acts, s.planning[i]));
    lemma_position(acts, s.planning[i]);
}

/// Precedence: in a settled state no activity starts before a predecessor
/// of it has ended, and both have been placed.
pub proof fn lemma_precedence(s: StateView, v: int, m: int)
    requires
        searchable(s),
        settled(s),
        0 <= v < s.project.activities.len(),
        0 <= m < s.project.activities[v].predecessors.len(),
    ensures
        ({
            let acts = s.project.activities;
            let u = position(acts, acts[v].predecessors[m]);
            &&& 0 <= u < acts.len()
            &&& is_planned(acts[u])
            &&& is_planned(acts[v])
            &&& acts[u].start_time + acts[u].duration <= acts[v].start_time
        }),
{
    let acts = s.project.activities;
    let planning = s.planning;
    let times = s.times;
    let n = planning.len() as int;
    let pid = acts[v].predecessors[m];
    assert(planning.contains(acts[v].id));
    let i = choose|i: int| 0 <= i < planning.len() && planning[i] == acts[v].id;
    lemma_position_distinct(acts, v);
    lemma_carried_times(s, i);
    assert(acts[position(acts, planning[i])].predecessors[m] == pid);
    assert(comes_before(planning, pid, i));
    let j = choose|j: int| 0 <= j < i && j < planning.len() && #[trigger] planning[j] == pid;
    lemma_carried_times(s, j);
    let u = position(acts, pid);
    // the placement of `v` looked at `u` as it was placed
    let before = placed(acts, planning, times, i);
    lemma_placed_same(acts, planning, times, i);
    lemma_same_network(acts, before);
    assert(ordered_upto(acts, planning, i));
    lemma_placed_start(acts, planning, times, i);
    assert(before[position(acts, planning[j])].start_time == times[j]);
    assert(step_ok(acts, planning, times, i));
    let a = candidate(acts, planning, times, i);
    assert(a.predecessors == acts[v].predecessors);
    lemma_earliest_bounds(before, a.predecessors, cursor(times, i));
    assert(floor_of(acts, planning, times, i) >= finish(
        before[position(before, a.predecessors[m])],
    ));
    lemma_times_monotone(s, j, j);
    lemma_times_monotone(s, i, i);
}

/// Rebuilding is idempotent: two settled states of one network with one
/// priority list have the same start times, the same end, and the same
/// activities.
pub proof fn lemma_rebuild_idempotent(a: StateView, b: StateView)
    requires
        same_network(a.project.activities, b.project.activities),
        a.planning == b.planning,
        settled(a),
        settled(b),
    ensures
        a.times == b.times,
        a.project.activities == b.project.activities,
{
    lemma_scheduled_network(b.project.activities, a.project.activities, b.planning, b.times);
    lemma_schedule_unique(
        a.project.activities,
        a.planning,
        a.times,
        b.times,
        a.planning.len() as int,
    );
    assert(a.times =~= b.times);
    crate::schedule::lemma_placed_network(
        a.project.activities,
        b.project.activities,
        a.planning,
        a.times,
        a.planning.len() as int,
    );
}

/// The first schedule of a project is determined by the project: two
/// settled states of one network whose priority lists are both its
/// breadth-first order are the same state.
pub proof fn lemma_first_schedule_unique(a: StateView, b: StateView)
    requires
        same_network(a.project.activities, b.project.activities),
        a.project.activities.len() > 0,
        breadth_first(a.project.activities, a.planning),
        breadth_first(b.project.activities, b.planning),
        settled(a),
        settled(b),
    ensures
        a.planning == b.planning,
        a.times == b.times,
        a.project.activities == b.project.activities,
{
    lemma_same_network(a.project.activities, b.project.activities);
    crate::walk::lemma_breadth_first_network(
        b.project.activities,
        a.project.activities,
        b.planning,
    );
    lemma_breadth_first_unique(a.project.activities, a.planning, b.planning);
    lemma_rebuild_idempotent(a, b);
}

/// A placed activity is under way at instant `t`: it has started and has
/// not ended.
pub open spec fn running_at(a: ActivityView, t: int) -> bool {
    is_planned(a) && a.start_time <= t < finish(a)
}

/// The units of resource `rid` that the activities under way at instant `t`
/// hold together.
pub open spec fn load(acts: Seq<ActivityView>, t: int, rid: u32) -> int
    decreases acts.len(),
{
    if acts.len() == 0 {
        0
    } else {
        load(acts.drop_last(), t, rid) + if running_at(acts.last(), t) {
            usage_of(acts.last().supplies, rid)
        } else {
            0
        }
    }
}

proof fn lemma_load_idle(acts: Seq<ActivityView>, t: int, rid: u32)
    requires
        forall|x: int| 0 <= x < acts.len() ==> !is_planned(#[trigger] acts[x]),
    ensures
        load(acts, t, rid) == 0,
    decreases acts.len(),
{
    if acts.len() > 0 {
        let rest = acts.drop_last();
        assert forall|x: int| 0 <= x < rest.len() implies !is_planned(#[trigger] rest[x]) by {
            assert(rest[x] == acts[x]);
        }
        lemma_load_idle(rest, t, rid);
        assert(!is_planned(acts[acts.len() - 1]));
    }
}

proof fn lemma_load_update(acts: Seq<ActivityView>, x: int, time: i32, t: int, rid: u32)
    requires
        0 <= x < acts.len(),
        !is_planned(acts[x]),
    ensures
        load(with_start(acts, x, time), t, rid) == load(acts, t, rid) + if running_at(
            with_start(acts, x, time)[x],
            t,
        ) {
            usage_of(acts[x].supplies, rid)
        } else {
            0
        },
    decreases acts.len(),
{
    let next = with_start(acts, x, time);
    if x == acts.len() - 1 {
        assert(next.drop_last() =~= acts.drop_last());
    } else {
        assert(next.drop_last() =~= with_start(acts.drop_last(), x, time));
        assert(acts.drop_last()[x] == acts[x]);
        lemma_load_update(acts.drop_last(), x, time, t, rid);
        assert(with_start(acts.drop_last(), x, time)[x] == next[x]);
    }
}

proof fn lemma_load_below_demand(acts: Seq<ActivityView>, skip: u32, t: int, at: int, rid: u32)
    requires
        forall|x: int|
            0 <= x < acts.len() && running_at(#[trigger] acts[x], t) ==> acts[x].id != skip
                && active_at(acts[x], at),
    ensures
        load(acts, t, rid) <= demand(acts, skip, at, rid),
    decreases acts.len(),
{
    if acts.len() > 0 {
        let rest = acts.drop_last();
        assert forall|x: int| 0 <= x < rest.len() && running_at(#[trigger] rest[x], t) implies rest[x].id
            != skip && active_at(rest[x], at) by {
            assert(rest[x] == acts[x]);
        }
        lemma_load_below_demand(rest, skip, t, at, rid);
        lemma_usage_nonneg(acts.last().supplies, rid);
        assert(acts.last() == acts[acts.len() - 1]);
    }
}

proof fn lemma_usage_named(supplies: Seq<UsageView>, rid: u32)
    requires
        usage_of(supplies, rid) > 0,
    ensures
        exists|q: int| 0 <= q < supplies.len() && (#[trigger] supplies[q]).resource.id == rid,
    decreases supplies.len(),
{
    if supplies.len() > 0 {
        if supplies.last().resource.id == rid {
            assert(supplies[supplies.len() - 1].resource.id == rid);
        } else {
            lemma_usage_named(supplies.drop_last(), rid);
            let q = choose|q: int|
                0 <= q < supplies.drop_last().len() && (#[trigger] supplies.drop_last()[q]).resource.id
                    == rid;
            assert(supplies[q].resource.id == rid);
        }
    }
}

/// After the first `k` placements of a schedule no resource is overloaded
/// at any instant.
proof fn lemma_capacity_upto(
    p: ProjectView,
    planning: Seq<u32>,
    times: Seq<i32>,
    k: int,
    r: int,
    t: int,
)
    requires
        well_formed(p),
        ordered(p.activities, planning),
        scheduled(p.activities, planning, times),
        0 <= k <= planning.len(),
        0 <= r < p.resources.len(),
    ensures
        load(placed(p.activities, planning, times, k), t, p.resources[r].id)
            <= p.resources[r].capacity,
    decreases k,
{
    let acts = p.activities;
    let rid = p.resources[r].id;
    let now = placed(acts, planning, times, k);
    assert(ordered_upto(acts, planning, k));
    lemma_placed_same(acts, planning, times, k);
    lemma_same_network(acts, now);
    lemma_placed_start(acts, planning, times, k);
    if k == 0 {
        lemma_load_idle(now, t, rid);
    } else {
        let i = k - 1;
        lemma_capacity_upto(p, planning, times, i, r, t);
        let before = placed(acts, planning, times, i);
        assert(ordered_upto(acts, planning, i));
        lemma_placed_same(acts, planning, times, i);
        lemma_same_network(acts, before);
        lemma_placed_start(acts, planning, times, i);
        assert(has_id(acts, planning[i]));
        lemma_position(acts, planning[i]);
        let x = position(acts, planning[i]);
        let a = before[x];
        assert(a == candidate(acts, planning, times, i));
        assert(!comes_before(planning, acts[x].id, i)) by {
            if comes_before(planning, acts[x].id, i) {
                let j = choose|j: int|
                    0 <= j < i && j < planning.len() && #[trigger] planning[j] == acts[x].id;
                assert(planning[j] != planning[i]);
            }
        }
        assert(!is_planned(before[x]));
        lemma_load_update(before, x, times[i], t, rid);
        assert(now == with_start(before, x, times[i]));
        if running_at(now[x], t) && usage_of(a.supplies, rid) > 0 {
            lemma_usage_named(a.supplies, rid);
            let q = choose|q: int|
                0 <= q < a.supplies.len() && (#[trigger] a.supplies[q]).resource.id == rid;
            assert(step_ok(acts, planning, times, i));
            assert(!overloads(before, a, times[i] as int, q));
            // the record names the resource of the project, so the capacities agree
            assert(a.supplies[q] == acts[x].supplies[q]);
            assert(declared(p.resources, acts[x].supplies[q].resource));
            let j = choose|j: int|
                0 <= j < p.resources.len() && (#[trigger] p.resources[j]).id
                    == a.supplies[q].resource.id && p.resources[j].capacity
                    == a.supplies[q].resource.capacity;
            if j < r {
                assert(p.resources[j].id != p.resources[r].id);
            } else if r < j {
                assert(p.resources[r].id != p.resources[j].id);
            }
            // what is under way at `t` was under way when the activity was placed
            assert forall|y: int|
                0 <= y < before.len() && running_at(#[trigger] before[y], t) implies before[y].id
                != a.id && active_at(before[y], times[i] as int) by {
                assert(y != x);
                lemma_position_distinct(acts, y);
                lemma_position_distinct(acts, x);
                assert(comes_before(planning, acts[y].id, i));
                let j2 = choose|j2: int|
                    0 <= j2 < i && j2 < planning.len() && #[trigger] planning[j2] == acts[y].id;
                assert(before[position(acts, planning[j2])].start_time == times[j2]);
                lemma_times_upto(acts, planning, times, j2, i);
            }
            lemma_load_below_demand(before, a.id, t, times[i] as int, rid);
        }
    }
}

/// The start times do not fall along the priority list.
proof fn lemma_times_upto(
    acts: Seq<ActivityView>,
    planning: Seq<u32>,
    times: Seq<i32>,
    i: int,
    j: int,
)
    requires
        scheduled(acts, planning, times),
        0 <= i <= j < times.len(),
    ensures
        times[i] <= times[j],
    decreases j - i,
{
    if i < j {
        lemma_times_upto(acts, planning, times, i, j - 1);
        assert(step_ok(acts, planning, times, j));
        lemma_scheduled_nonneg(acts, planning, times, j);
    }
}

/// Capacity: in a settled state, at every instant, the activities under way
/// hold no more of any resource of the project than its capacity.
pub proof fn lemma_capacity(s: StateView, r: int, t: int)
    requires
        searchable(s),
        settled(s),
        0 <= r < s.project.resources.len(),
    ensures
        load(s.project.activities, t, s.project.resources[r].id)
            <= s.project.resources[r].capacity,
{
    lemma_capacity_upto(s.project, s.planning, s.times, s.planning.len() as int, r, t);
}

/// `path` leads along arcs from its first activity to its last.
pub open spec fn is_path(acts: Seq<ActivityView>, path: Seq<u32>) -> bool {
    &&& path.len() >= 1
    &&& forall|k: int| 0 <= k < path.len() ==> has_id(acts, #[trigger] path[k])
    &&& forall|k: int|
        0 <= k < path.len() - 1 ==> names_successor(acts, #[trigger] path[k], path[k + 1])
}

/// A path leads from the activity `u` to the activity `v`.
pub open spec fn reaches(acts: Seq<ActivityView>, u: u32, v: u32) -> bool {
    exists|path: Seq<u32>| #[trigger] is_path(acts, path) && path.first() == u && path.last() == v
}

/// In a network every activity can be reached from the source.
pub proof fn lemma_reached_from_source(p: ProjectView, x: int)
    requires
        schema(p),
        0 <= x < p.activities.len(),
    ensures
        reaches(p.activities, p.activities[0].id, p.activities[x].id),
{
    let rank = choose|rank: Seq<nat>| respects(p.activities, rank);
    lemma_reached_ranked(p, rank, x);
}

proof fn lemma_reached_ranked(p: ProjectView, rank: Seq<nat>, x: int)
    requires
        schema(p),
        respects(p.activities, rank),
        0 <= x < p.activities.len(),
    ensures
        reaches(p.activities, p.activities[0].id, p.activities[x].id),
    decreases rank[x],
{
    let acts = p.activities;
    if x == 0 {
        let path = seq![acts[0].id];
        assert(has_id(acts, acts[0].id));
        assert(is_path(acts, path));
    } else {
        assert(acts[x].predecessors.len() > 0);
        let pid = acts[x].predecessors[0];
        assert(all_known(acts, acts[x].predecessors));
        assert(has_id(acts, pid));
        lemma_position(acts, pid);
        let u = position(acts, pid);
        assert(rank[u] < rank[x]);
        lemma_reached_ranked(p, rank, u);
        let path = choose|path: Seq<u32>|
            #[trigger] is_path(acts, path) && path.first() == acts[0].id && path.last() == pid;
        let longer = path.push(acts[x].id);
        assert(names_successor(acts, acts[x].predecessors[0], acts[x].id));
        assert(has_id(acts, acts[x].id));
        assert forall|k: int| 0 <= k < longer.len() implies has_id(acts, #[trigger] longer[k]) by {
            if k < path.len() {
                assert(longer[k] == path[k]);
            }
        }
        assert forall|k: int| 0 <= k < longer.len() - 1 implies names_successor(
            acts,
            #[trigger] longer[k],
            longer[k + 1],
        ) by {
            if k < path.len() - 1 {
                assert(longer[k] == path[k] && longer[k + 1] == path[k + 1]);
            }
        }
        assert(is_path(acts, longer));
        assert(longer.first() == path.first());
    }
}

/// In a network every activity reaches the sink.
pub proof fn lemma_reaches_sink(p: ProjectView, x: int)
    requires
        schema(p),
        0 <= x < p.activities.len(),
    ensures
        reaches(p.activities, p.activities[x].id, p.activities.last().id),
{
    let rank = choose|rank: Seq<nat>| respects(p.activities, rank);
    let top = lemma_rank_bound(rank, rank.len() as int);
    lemma_sink_ranked(p, rank, top, x);
}

proof fn lemma_rank_bound(rank: Seq<nat>, k: int) -> (top: nat)
    requires
        0 <= k <= rank.len(),
    ensures
        forall|i: int| 0 <= i < k ==> rank[i] <= top,
    decreases k,
{
    if k == 0 {
        0
    } else {
        let rest = lemma_rank_bound(rank, k - 1);
        if rank[k - 1] > rest {
            rank[k - 1]
        } else {
            rest
        }
    }
}

proof fn lemma_sink_ranked(p: ProjectView, rank: Seq<nat>, top: nat, x: int)
    requires
        schema(p),
        respects(p.activities, rank),
        forall|i: int| 0 <= i < rank.len() ==> rank[i] <= top,
        0 <= x < p.activities.len(),
    ensures
        reaches(p.activities, p.activities[x].id, p.activities.last().id),
    decreases top - rank[x],
{
    let acts = p.activities;
    let n = acts.len() as int;
    if x == n - 1 {
        let path = seq![acts[x].id];
        assert(has_id(acts, acts[x].id));
        assert(is_path(acts, path));
    } else {
        assert(acts[x].successors.len() > 0);
        let sid = acts[x].successors[0];
        assert(all_known(acts, acts[x].successors));
        assert(has_id(acts, sid));
        lemma_position(acts, sid);
        let v = position(acts, sid);
        assert(names_predecessor(acts, acts[x].successors[0], acts[x].id));
        let m = choose|m: int|
            0 <= m < acts[v].predecessors.len() && acts[v].predecessors[m] == acts[x].id;
        lemma_position_distinct(acts, x);
        assert(rank[position(acts, acts[v].predecessors[m])] < rank[v]);
        lemma_sink_ranked(p, rank, top, v);
        let path = choose|path: Seq<u32>|
            #[trigger] is_path(acts, path) && path.first() == sid && path.last() == acts.last().id;
        let longer = seq![acts[x].id] + path;
        assert(has_id(acts, acts[x].id));
        assert(acts[x].successors.contains(sid));
        assert forall|k: int| 0 <= k < longer.len() implies has_id(acts, #[trigger] longer[k]) by {
            if k > 0 {
                assert(longer[k] == path[k - 1]);
            }
        }
        assert forall|k: int| 0 <= k < longer.len() - 1 implies names_successor(
            acts,
            #[trigger] longer[k],
            longer[k + 1],
        ) by {
            if k > 0 {
                assert(longer[k] == path[k - 1] && longer[k + 1] == path[k]);
            } else {
                assert(longer[1] == path[0]);
            }
        }
        assert(is_path(acts, longer));
        assert(longer.last() == path.last());
    }
}

/// A priority list of a network begins with the source and ends with the
/// sink.
pub proof fn lemma_dummies_at_ends(s: StateView)
    requires
        searchable(s),
    ensures
        s.planning.len() == s.project.activities.len(),
        s.planning[0] == s.project.activities[0].id,
        s.planning.last() == s.project.activities.last().id,
{
    let acts = s.project.activities;
    let planning = s.planning;
    let n = planning.len() as int;
    // the first of the list has no predecessor
    assert(has_id(acts, planning[0]));
    lemma_position(acts, planning[0]);
    let first = position(acts, planning[0]);
    if acts[first].predecessors.len() > 0 {
        assert(comes_before(planning, acts[position(acts, planning[0])].predecessors[0], 0));
    }
    assert(first == 0);
    // the last of the list has no successor
    assert(has_id(acts, planning[n - 1]));
    lemma_position(acts, planning[n - 1]);
    let last = position(acts, planning[n - 1]);
    if acts[last].successors.len() > 0 {
        let v = acts[last].id;
        let next = acts[last].successors[0];
        assert(all_known(acts, acts[last].successors));
        assert(has_id(acts, next));
        lemma_position(acts, next);
        let at = position(acts, next);
        assert(planning.contains(acts[at].id));
        let j = choose|j: int| 0 <= j < planning.len() && planning[j] == acts[at].id;
        assert(names_predecessor(acts, acts[last].successors[0], acts[last].id));
        let m = choose|m: int|
            0 <= m < acts[at].predecessors.len() && acts[at].predecessors[m] == v;
        assert(comes_before(planning, acts[position(acts, planning[j])].predecessors[m], j));
        let i = choose|i: int| 0 <= i < j && i < planning.len() && #[trigger] planning[i] == v;
        assert(planning[i] != planning[n - 1]);
    }
    assert(last == n - 1);
}

/// The end of a settled schedule is the start of the sink, and the source
/// starts at 0.
pub proof fn lemma_makespan_is_sink_start(s: StateView)
    requires
        searchable(s),
        settled(s),
    ensures
        s.times.last() == s.project.activities.last().start_time,
        s.project.activities[0].start_time == 0,
        s.times[0] == 0,
{
    let acts = s.project.activities;
    let n = s.planning.len() as int;
    lemma_dummies_at_ends(s);
    lemma_carried_times(s, n - 1);
    lemma_carried_times(s, 0);
    lemma_position_distinct(acts, n - 1);
    lemma_position_distinct(acts, 0);
    // nothing holds the source back
    assert(step_ok(acts, s.planning, s.times, 0));
    let before = placed(acts, s.planning, s.times, 0);
    lemma_placed_same(acts, s.planning, s.times, 0);
    lemma_same_network(acts, before);
    let a = candidate(acts, s.planning, s.times, 0);
    assert(a.predecessors.len() == 0);
    assert(a.supplies.len() == 0);
    assert(!conflict(before, a, 0));
    lemma_times_monotone(s, 0, 0);
}

} // verus!
