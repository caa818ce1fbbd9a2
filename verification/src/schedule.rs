//! What a schedule is: the placements that a priority list stands for, and
//! the order in which a breadth-first walk of the network places activities.

use vstd::prelude::*;
use crate::model::{
    acyclic, all_known, arcs_known, arcs_mirrored, cleared, conflict, declared, demand,
    distinct_ids, earliest_start, finish, has_dummies, has_id, horizon, is_planned, lemma_position,
    lemma_position_is, names_predecessor, names_successor, overloads, position, respects,
    supplies_fit, usage_of, well_formed, with_start, within_horizon, ActivityView, ProjectView,
    UNPLANNED,
};

verus! {

/// `acts` after the first `k` activities of `planning` were given the start
/// times `times`, all others being unplanned.
pub open spec fn placed(
    acts: Seq<ActivityView>,
    planning: Seq<u32>,
    times: Seq<i32>,
    k: int,
) -> Seq<ActivityView>
    decreases k,
{
    if k <= 0 {
        cleared(acts)
    } else {
        with_start(
            placed(acts, planning, times, k - 1),
            position(acts, planning[k - 1]),
            times[k - 1],
        )
    }
}

/// The instant from which the `i`-th placement searches: the start of the
/// placement before it.
pub open spec fn cursor(times: Seq<i32>, i: int) -> int {
    if i <= 0 {
        0
    } else {
        times[i - 1] as int
    }
}

/// The `i`-th activity of `planning` as it stands before its own placement.
pub open spec fn candidate(
    acts: Seq<ActivityView>,
    planning: Seq<u32>,
    times: Seq<i32>,
    i: int,
) -> ActivityView {
    placed(acts, planning, times, i)[position(acts, planning[i])]
}

/// The earliest instant that precedence and the cursor allow to the `i`-th
/// placement.
pub open spec fn floor_of(
    acts: Seq<ActivityView>,
    planning: Seq<u32>,
    times: Seq<i32>,
    i: int,
) -> int {
    earliest_start(
        placed(acts, planning, times, i),
        candidate(acts, planning, times, i).predecessors,
        cursor(times, i),
    )
}

/// The `i`-th start time is the first instant, from the floor on, at which
/// the activity meets no resource conflict with those placed before it.
pub open spec fn step_ok(
    acts: Seq<ActivityView>,
    planning: Seq<u32>,
    times: Seq<i32>,
    i: int,
) -> bool {
    let before = placed(acts, planning, times, i);
    let a = candidate(acts, planning, times, i);
    let floor = floor_of(acts, planning, times, i);
    &&& floor <= times[i]
    &&& !conflict(before, a, times[i] as int)
    &&& forall|t: int| floor <= t < times[i] ==> #[trigger] conflict(before, a, t)
}

/// The first `k` start times are those of the serial generation scheme.
pub open spec fn scheduled_upto(
    acts: Seq<ActivityView>,
    planning: Seq<u32>,
    times: Seq<i32>,
    k: int,
) -> bool {
    forall|i: int| 0 <= i < k ==> #[trigger] step_ok(acts, planning, times, i)
}

/// `times` is the schedule that the serial generation scheme gives to the
/// priority list `planning`.
pub open spec fn scheduled(acts: Seq<ActivityView>, planning: Seq<u32>, times: Seq<i32>) -> bool {
    times.len() == planning.len() && scheduled_upto(acts, planning, times, planning.len() as int)
}

/// The first `k` entries of `planning` are distinct activities of `acts`,
/// each after all of its predecessors.
pub open spec fn ordered_upto(acts: Seq<ActivityView>, planning: Seq<u32>, k: int) -> bool {
    &&& 0 <= k <= planning.len()
    &&& forall|i: int| 0 <= i < k ==> has_id(acts, #[trigger] planning[i])
    &&& forall|i: int, j: int| 0 <= i < j < k ==> planning[i] != planning[j]
    &&& forall|i: int, m: int|
        0 <= i < k && 0 <= m < acts[position(acts, planning[i])].predecessors.len()
            ==> comes_before(
            planning,
            #[trigger] acts[position(acts, planning[i])].predecessors[m],
            i,
        )
}

/// `id` stands in `planning` before place `i`.
pub open spec fn comes_before(planning: Seq<u32>, id: u32, i: int) -> bool {
    exists|j: int| 0 <= j < i && j < planning.len() && #[trigger] planning[j] == id
}

/// `planning` is a priority list of `acts`: every activity once, each after
/// all of its predecessors.
pub open spec fn ordered(acts: Seq<ActivityView>, planning: Seq<u32>) -> bool {
    &&& planning.len() == acts.len()
    &&& ordered_upto(acts, planning, planning.len() as int)
    &&& forall|x: int| 0 <= x < acts.len() ==> planning.contains((#[trigger] acts[x]).id)
}

/// Two lists of activities differ at most in start times.
pub open spec fn same_network(a: Seq<ActivityView>, b: Seq<ActivityView>) -> bool {
    cleared(a) == cleared(b)
}

/// What two lists of activities that differ in start times only share.
pub proof fn lemma_same_network(a: Seq<ActivityView>, b: Seq<ActivityView>)
    requires
        same_network(a, b),
    ensures
        a.len() == b.len(),
        forall|i: int|
            0 <= i < a.len() ==> #[trigger] b[i] == (ActivityView {
                start_time: b[i].start_time,
                ..a[i]
            }),
        forall|id: u32| #[trigger] position(b, id) == position(a, id),
        forall|id: u32| #[trigger] has_id(b, id) == has_id(a, id),
{
    assert(cleared(a).len() == cleared(b).len());
    assert forall|i: int| 0 <= i < a.len() implies #[trigger] b[i] == (ActivityView {
        start_time: b[i].start_time,
        ..a[i]
    }) by {
        assert(cleared(a)[i] == cleared(b)[i]);
    }
    assert forall|id: u32| #[trigger] has_id(b, id) == has_id(a, id) by {
        if has_id(a, id) {
            let i = choose|i: int| 0 <= i < a.len() && (#[trigger] a[i]).id == id;
            assert(b[i].id == id);
        }
        if has_id(b, id) {
            let i = choose|i: int| 0 <= i < b.len() && (#[trigger] b[i]).id == id;
            assert(a[i].id == id);
        }
    }
    assert forall|id: u32| #[trigger] position(b, id) == position(a, id) by {
        lemma_position(a, id);
        lemma_position(b, id);
        if has_id(a, id) {
            let i = position(a, id);
            assert forall|j: int| 0 <= j < i implies (#[trigger] b[j]).id != id by {
                assert(a[j].id != id);
            }
            assert(b[i].id == id);
            lemma_position_is(b, id, i);
        }
    }
}

/// Setting a start time leaves the network as it is.
pub proof fn lemma_with_start_same(acts: Seq<ActivityView>, i: int, time: i32)
    requires
        0 <= i < acts.len(),
    ensures
        same_network(acts, with_start(acts, i, time)),
{
    assert(cleared(acts) =~= cleared(with_start(acts, i, time)));
}

/// Taking the start times back leaves the network as it is.
pub proof fn lemma_cleared_same(acts: Seq<ActivityView>)
    ensures
        same_network(acts, cleared(acts)),
        cleared(cleared(acts)) == cleared(acts),
{
    assert(cleared(acts) =~= cleared(cleared(acts)));
}

/// Placing changes start times only.
pub proof fn lemma_placed_same(
    acts: Seq<ActivityView>,
    planning: Seq<u32>,
    times: Seq<i32>,
    k: int,
)
    requires
        0 <= k <= planning.len(),
        forall|i: int| 0 <= i < k ==> has_id(acts, #[trigger] planning[i]),
    ensures
        same_network(acts, placed(acts, planning, times, k)),
    decreases k,
{
    if k <= 0 {
        lemma_cleared_same(acts);
    } else {
        lemma_placed_same(acts, planning, times, k - 1);
        let prev = placed(acts, planning, times, k - 1);
        lemma_same_network(acts, prev);
        lemma_position(acts, planning[k - 1]);
        lemma_with_start_same(prev, position(acts, planning[k - 1]), times[k - 1]);
    }
}

/// The first `k` placements do not depend on what follows them in the lists.
pub proof fn lemma_placed_agree(
    acts: Seq<ActivityView>,
    pa: Seq<u32>,
    ta: Seq<i32>,
    pb: Seq<u32>,
    tb: Seq<i32>,
    k: int,
)
    requires
        forall|i: int| 0 <= i < k ==> pa[i] == pb[i] && ta[i] == tb[i],
    ensures
        placed(acts, pa, ta, k) == placed(acts, pb, tb, k),
    decreases k,
{
    if k > 0 {
        lemma_placed_agree(acts, pa, ta, pb, tb, k - 1);
    }
}

/// What the first `k` placements leave at each place: the activity placed
/// at `j` starts at `times[j]`, an activity not among them is unplanned.
pub proof fn lemma_placed_start(
    acts: Seq<ActivityView>,
    planning: Seq<u32>,
    times: Seq<i32>,
    k: int,
)
    requires
        distinct_ids(acts),
        ordered_upto(acts, planning, k),
    ensures
        forall|j: int|
            0 <= j < k ==> (#[trigger] placed(acts, planning, times, k)[position(
                acts,
                planning[j],
            )]).start_time == times[j],
        forall|x: int|
            0 <= x < acts.len() && !comes_before(planning, acts[x].id, k) ==> (#[trigger] placed(
                acts,
                planning,
                times,
                k,
            )[x]).start_time == UNPLANNED,
    decreases k,
{
    let now = placed(acts, planning, times, k);
    if k <= 0 {
    } else {
        lemma_placed_start(acts, planning, times, k - 1);
        let prev = placed(acts, planning, times, k - 1);
        lemma_placed_same(acts, planning, times, k - 1);
        lemma_same_network(acts, prev);
        let at = position(acts, planning[k - 1]);
        lemma_position(acts, planning[k - 1]);
        assert forall|j: int| 0 <= j < k implies (#[trigger] now[position(
            acts,
            planning[j],
        )]).start_time == times[j] by {
            lemma_position(acts, planning[j]);
            if j < k - 1 {
                assert(planning[j] != planning[k - 1]);
                assert(position(acts, planning[j]) != at);
                assert(prev[position(acts, planning[j])].start_time == times[j]);
            }
        }
        assert forall|x: int|
            0 <= x < acts.len() && !comes_before(planning, acts[x].id, k) implies (#[trigger] now[x]).start_time
            == UNPLANNED by {
            if x == at {
                assert(planning[k - 1] == acts[x].id);
                assert(comes_before(planning, acts[x].id, k));
            }
            if comes_before(planning, acts[x].id, k - 1) {
                let j = choose|j: int|
                    0 <= j < k - 1 && j < planning.len() && #[trigger] planning[j] == acts[x].id;
                assert(comes_before(planning, acts[x].id, k));
            }
        }
    }
}

/// Networks that differ in start times only are placed alike.
pub proof fn lemma_placed_network(
    a: Seq<ActivityView>,
    b: Seq<ActivityView>,
    planning: Seq<u32>,
    times: Seq<i32>,
    k: int,
)
    requires
        same_network(a, b),
    ensures
        placed(a, planning, times, k) == placed(b, planning, times, k),
    decreases k,
{
    lemma_same_network(a, b);
    if k > 0 {
        lemma_placed_network(a, b, planning, times, k - 1);
    }
}

/// What `earliest_start` is at least.
pub proof fn lemma_earliest_bounds(acts: Seq<ActivityView>, preds: Seq<u32>, floor: int)
    ensures
        earliest_start(acts, preds, floor) >= floor,
        forall|m: int|
            0 <= m < preds.len() ==> earliest_start(acts, preds, floor) >= finish(
                acts[position(acts, #[trigger] preds[m])],
            ),
    decreases preds.len(),
{
    if preds.len() > 0 {
        let rest = preds.drop_last();
        lemma_earliest_bounds(acts, rest, floor);
        assert forall|m: int| 0 <= m < preds.len() implies earliest_start(acts, preds, floor)
            >= finish(acts[position(acts, #[trigger] preds[m])]) by {
            if m < preds.len() - 1 {
                assert(rest[m] == preds[m]);
            }
        }
    }
}

/// What bounds `earliest_start` from above.
pub proof fn lemma_earliest_below(acts: Seq<ActivityView>, preds: Seq<u32>, floor: int, h: int)
    requires
        floor <= h,
        forall|m: int|
            0 <= m < preds.len() ==> finish(acts[position(acts, #[trigger] preds[m])]) <= h,
    ensures
        earliest_start(acts, preds, floor) <= h,
    decreases preds.len(),
{
    if preds.len() > 0 {
        let rest = preds.drop_last();
        assert forall|m: int| 0 <= m < rest.len() implies finish(
            acts[position(acts, #[trigger] rest[m])],
        ) <= h by {
            assert(rest[m] == preds[m]);
        }
        lemma_earliest_below(acts, rest, floor, h);
        assert(preds.last() == preds[preds.len() - 1]);
    }
}

/// Every placed activity of `acts` has ended, with an instant to spare, by `h`.
pub open spec fn settled_before(acts: Seq<ActivityView>, h: int) -> bool {
    forall|x: int|
        0 <= x < acts.len() && is_planned(#[trigger] acts[x]) ==> acts[x].start_time
            + acts[x].duration + 1 <= h
}

/// Once every placed activity has ended, nothing is held.
pub proof fn lemma_quiet(acts: Seq<ActivityView>, skip: u32, t: int, rid: u32, h: int)
    requires
        settled_before(acts, h),
        h <= t,
    ensures
        demand(acts, skip, t, rid) == 0,
    decreases acts.len(),
{
    if acts.len() > 0 {
        let rest = acts.drop_last();
        assert forall|x: int| 0 <= x < rest.len() && is_planned(#[trigger] rest[x]) implies rest[x].start_time
            + rest[x].duration + 1 <= h by {
            assert(rest[x] == acts[x]);
        }
        lemma_quiet(rest, skip, t, rid, h);
        assert(acts.last() == acts[acts.len() - 1]);
    }
}

/// No usage record of `a` asks for more than its resource has.
pub open spec fn modest(a: ActivityView) -> bool {
    forall|k: int|
        0 <= k < a.supplies.len() ==> usage_of(a.supplies, (#[trigger] a.supplies[k]).resource.id)
            <= a.supplies[k].resource.capacity
}

/// Once every placed activity has ended, a modest activity meets no conflict.
pub proof fn lemma_no_conflict_after(acts: Seq<ActivityView>, a: ActivityView, t: int, h: int)
    requires
        settled_before(acts, h),
        h <= t,
        modest(a),
    ensures
        !conflict(acts, a, t),
{
    assert forall|k: int| 0 <= k < a.supplies.len() implies !#[trigger] overloads(acts, a, t, k) by {
        lemma_quiet(acts, a.id, t, a.supplies[k].resource.id, h);
        assert(usage_of(a.supplies, a.supplies[k].resource.id) <= a.supplies[k].resource.capacity);
    }
}

/// Start times of the scheme are never negative, and none is before the
/// one before it.
pub proof fn lemma_scheduled_nonneg(
    acts: Seq<ActivityView>,
    planning: Seq<u32>,
    times: Seq<i32>,
    i: int,
)
    requires
        0 <= i,
        scheduled_upto(acts, planning, times, i + 1),
    ensures
        times[i] >= 0,
        times[i] >= cursor(times, i),
    decreases i,
{
    assert(step_ok(acts, planning, times, i));
    lemma_earliest_bounds(
        placed(acts, planning, times, i),
        candidate(acts, planning, times, i).predecessors,
        cursor(times, i),
    );
    if i > 0 {
        lemma_scheduled_nonneg(acts, planning, times, i - 1);
    }
}

/// The schedule of a priority list is unique.
pub proof fn lemma_schedule_unique(
    acts: Seq<ActivityView>,
    planning: Seq<u32>,
    ta: Seq<i32>,
    tb: Seq<i32>,
    k: int,
)
    requires
        0 <= k <= ta.len(),
        k <= tb.len(),
        scheduled_upto(acts, planning, ta, k),
        scheduled_upto(acts, planning, tb, k),
    ensures
        forall|i: int| 0 <= i < k ==> ta[i] == tb[i],
    decreases k,
{
    if k > 0 {
        lemma_schedule_unique(acts, planning, ta, tb, k - 1);
        let i = k - 1;
        lemma_placed_agree(acts, planning, ta, planning, tb, i);
        assert(step_ok(acts, planning, ta, i));
        assert(step_ok(acts, planning, tb, i));
        assert(cursor(ta, i) == cursor(tb, i));
        let before = placed(acts, planning, ta, i);
        let a = candidate(acts, planning, ta, i);
        if ta[i] < tb[i] {
            assert(conflict(before, a, ta[i] as int));
        } else if tb[i] < ta[i] {
            assert(conflict(before, a, tb[i] as int));
        }
    }
}

/// The start times that the serial generation scheme gives to `planning`.
pub open spec fn schedule_of(acts: Seq<ActivityView>, planning: Seq<u32>) -> Seq<i32> {
    choose|times: Seq<i32>| scheduled(acts, planning, times)
}

/// The end of the project under the priority list `planning`.
pub open spec fn makespan_of(acts: Seq<ActivityView>, planning: Seq<u32>) -> int {
    schedule_of(acts, planning).last() as int
}

/// Any schedule of a priority list is the schedule of it.
pub proof fn lemma_schedule_is(acts: Seq<ActivityView>, planning: Seq<u32>, times: Seq<i32>)
    requires
        scheduled(acts, planning, times),
    ensures
        schedule_of(acts, planning) == times,
{
    let other = schedule_of(acts, planning);
    lemma_schedule_unique(acts, planning, times, other, planning.len() as int);
    assert(other =~= times);
}

/// The schedule does not look at the start times that the activities carry.
pub proof fn lemma_scheduled_network(
    a: Seq<ActivityView>,
    b: Seq<ActivityView>,
    planning: Seq<u32>,
    times: Seq<i32>,
)
    requires
        same_network(a, b),
        scheduled(a, planning, times),
    ensures
        scheduled(b, planning, times),
{
    lemma_same_network(a, b);
    assert forall|i: int| 0 <= i < planning.len() implies #[trigger] step_ok(
        b,
        planning,
        times,
        i,
    ) by {
        lemma_placed_network(a, b, planning, times, i);
        assert(step_ok(a, planning, times, i));
    }
}

/// One of the activities `u` and `v` names the other as a neighbour.
pub open spec fn adjacent(acts: Seq<ActivityView>, u: u32, v: u32) -> bool {
    let a = acts[position(acts, u)];
    let b = acts[position(acts, v)];
    a.predecessors.contains(v) || a.successors.contains(v) || b.predecessors.contains(u)
        || b.successors.contains(u)
}

/// The three activities around place `i` of `planning` can be rotated: no
/// arc joins two of them.
pub open spec fn admissible(acts: Seq<ActivityView>, planning: Seq<u32>, i: int) -> bool {
    &&& 1 <= i < planning.len() - 1
    &&& !adjacent(acts, planning[i - 1], planning[i])
    &&& !adjacent(acts, planning[i], planning[i + 1])
    &&& !adjacent(acts, planning[i - 1], planning[i + 1])
}

/// `planning` with the activities at `i - 1`, `i`, `i + 1` rotated: the last
/// of the three comes first.
pub open spec fn rotated(planning: Seq<u32>, i: int) -> Seq<u32> {
    planning.update(i - 1, planning[i + 1]).update(i, planning[i - 1]).update(i + 1, planning[i])
}

/// The three activities that the move at `i` rotates.
pub open spec fn triple_at(planning: Seq<u32>, i: int) -> Seq<u32> {
    seq![planning[i - 1], planning[i], planning[i + 1]]
}

/// Where the place `j` of `planning` goes under the rotation at `i`.
pub open spec fn moved(i: int, j: int) -> int {
    if j == i - 1 {
        i
    } else if j == i {
        i + 1
    } else if j == i + 1 {
        i - 1
    } else {
        j
    }
}

/// Rotating three activities that no arc joins leaves a priority list.
pub proof fn lemma_rotation_ordered(acts: Seq<ActivityView>, planning: Seq<u32>, i: int)
    requires
        ordered(acts, planning),
        admissible(acts, planning, i),
    ensures
        ordered(acts, rotated(planning, i)),
{
    let next = rotated(planning, i);
    let n = planning.len() as int;
    assert forall|j: int| 0 <= j < n implies next[moved(i, j)] == planning[j] by {}
    assert forall|x: int| 0 <= x < n implies has_id(acts, #[trigger] next[x]) by {
        assert(has_id(acts, planning[moved(i, moved(i, x))]));
    }
    assert forall|x: int, y: int| 0 <= x < y < n implies next[x] != next[y] by {
        let a = moved(i, moved(i, x));
        let b = moved(i, moved(i, y));
        assert(next[x] == planning[a] && next[y] == planning[b] && a != b);
        if a < b {
            assert(planning[a] != planning[b]);
        } else {
            assert(planning[b] != planning[a]);
        }
    }
    assert forall|x: int, m: int|
        0 <= x < n && 0 <= m < acts[position(acts, next[x])].predecessors.len() implies comes_before(
        next,
        #[trigger] acts[position(acts, next[x])].predecessors[m],
        x,
    ) by {
        let from = moved(i, moved(i, x));
        assert(next[x] == planning[from]);
        let pid = acts[position(acts, planning[from])].predecessors[m];
        assert(comes_before(planning, pid, from));
        let j = choose|j: int| 0 <= j < from && j < planning.len() && #[trigger] planning[j] == pid;
        assert(acts[position(acts, planning[from])].predecessors.contains(pid));
        if i - 1 <= from <= i + 1 {
            // a predecessor of one of the three is none of the three
            assert(planning[j] != planning[i - 1] || j == i - 1);
            if i - 1 <= j <= i + 1 {
                assert(false);
            }
            assert(next[j] == pid);
        } else {
            assert(next[moved(i, j)] == pid);
        }
    }
    assert forall|x: int| 0 <= x < acts.len() implies next.contains((#[trigger] acts[x]).id) by {
        assert(planning.contains(acts[x].id));
        let j = choose|j: int| 0 <= j < planning.len() && planning[j] == acts[x].id;
        assert(next[moved(i, j)] == acts[x].id);
    }
}

/// Being a priority list does not depend on start times.
pub proof fn lemma_ordered_network(a: Seq<ActivityView>, b: Seq<ActivityView>, planning: Seq<u32>)
    requires
        same_network(a, b),
        ordered(a, planning),
    ensures
        ordered(b, planning),
{
    lemma_same_network(a, b);
    assert forall|i: int, m: int|
        0 <= i < planning.len() && 0 <= m < b[position(b, planning[i])].predecessors.len() implies comes_before(
        planning,
        #[trigger] b[position(b, planning[i])].predecessors[m],
        i,
    ) by {
        lemma_position(a, planning[i]);
        assert(has_id(a, planning[i]));
        assert(b[position(b, planning[i])].predecessors == a[position(
            a,
            planning[i],
        )].predecessors);
        assert(comes_before(planning, a[position(a, planning[i])].predecessors[m], i));
    }
    assert forall|x: int| 0 <= x < b.len() implies planning.contains((#[trigger] b[x]).id) by {
        assert(planning.contains(a[x].id));
    }
}

/// Being well formed does not depend on start times.
pub proof fn lemma_network_well_formed(p: ProjectView, q: ProjectView)
    requires
        well_formed(p),
        same_network(p.activities, q.activities),
        p.resources == q.resources,
    ensures
        well_formed(q),
{
    let a = p.activities;
    let b = q.activities;
    lemma_same_network(a, b);
    assert(has_dummies(b)) by {
        assert(b[0] == (ActivityView { start_time: b[0].start_time, ..a[0] }));
        assert(b.last() == (ActivityView { start_time: b.last().start_time, ..a.last() }));
        assert forall|i: int| 0 <= i < b.len() implies ((#[trigger] b[i]).predecessors.len() == 0
            <==> i == 0) by {
            assert(a[i].predecessors == b[i].predecessors);
        }
        assert forall|i: int| 0 <= i < b.len() implies ((#[trigger] b[i]).successors.len() == 0
            <==> i == b.len() - 1) by {
            assert(a[i].successors == b[i].successors);
        }
    }
    assert(distinct_ids(b)) by {
        assert forall|i: int, j: int| 0 <= i < j < b.len() implies (#[trigger] b[i]).id != (
        #[trigger] b[j]).id by {
            assert(a[i].id != a[j].id);
        }
    }
    assert(arcs_known(b)) by {
        assert forall|i: int| 0 <= i < b.len() implies all_known(
            b,
            (#[trigger] b[i]).predecessors,
        ) && all_known(b, b[i].successors) by {
            assert(all_known(a, a[i].predecessors) && all_known(a, a[i].successors));
            assert(a[i].predecessors == b[i].predecessors);
            assert(a[i].successors == b[i].successors);
            assert forall|k: int| 0 <= k < b[i].predecessors.len() implies has_id(
                b,
                #[trigger] b[i].predecessors[k],
            ) by {
                assert(has_id(a, a[i].predecessors[k]));
            }
            assert forall|k: int| 0 <= k < b[i].successors.len() implies has_id(
                b,
                #[trigger] b[i].successors[k],
            ) by {
                assert(has_id(a, a[i].successors[k]));
            }
        }
    }
    assert(arcs_mirrored(b)) by {
        assert forall|i: int, k: int|
            0 <= i < b.len() && 0 <= k < b[i].predecessors.len() implies names_successor(
            b,
            #[trigger] b[i].predecessors[k],
            b[i].id,
        ) by {
            let u = a[i].predecessors[k];
            assert(names_successor(a, u, a[i].id));
            assert(has_id(a, u)) by {
                assert(all_known(a, a[i].predecessors));
            }
            lemma_position(a, u);
        }
        assert forall|i: int, k: int|
            0 <= i < b.len() && 0 <= k < b[i].successors.len() implies names_predecessor(
            b,
            #[trigger] b[i].successors[k],
            b[i].id,
        ) by {
            let v = a[i].successors[k];
            assert(names_predecessor(a, v, a[i].id));
            assert(has_id(a, v)) by {
                assert(all_known(a, a[i].successors));
            }
            lemma_position(a, v);
        }
    }
    assert(acyclic(b)) by {
        let rank = choose|rank: Seq<nat>| respects(a, rank);
        assert forall|i: int, k: int|
            0 <= i < b.len() && 0 <= k < b[i].predecessors.len() implies rank[position(
            b,
            #[trigger] b[i].predecessors[k],
        )] < rank[i] by {
            assert(rank[position(a, a[i].predecessors[k])] < rank[i]);
        }
        assert(respects(b, rank));
    }
    assert(supplies_fit(q)) by {
        assert forall|i: int, k: int|
            0 <= i < b.len() && 0 <= k < b[i].supplies.len() implies {
            let s = #[trigger] b[i].supplies[k];
            declared(q.resources, s.resource) && usage_of(b[i].supplies, s.resource.id)
                <= s.resource.capacity
        } by {
            let s = a[i].supplies[k];
            assert(declared(p.resources, s.resource));
        }
    }
    assert(within_horizon(b)) by {
        lemma_horizon_network(a, b);
    }
}

/// The instants that the placed activities of `acts` can have taken
/// together: each its duration and one more.
pub open spec fn planned_span(acts: Seq<ActivityView>) -> int
    decreases acts.len(),
{
    if acts.len() == 0 {
        0
    } else {
        planned_span(acts.drop_last()) + if is_planned(acts.last()) {
            acts.last().duration + 1
        } else {
            0
        }
    }
}

/// The instants that the first `k` placements can have taken together.
pub open spec fn spent(
    acts: Seq<ActivityView>,
    planning: Seq<u32>,
    times: Seq<i32>,
    k: int,
) -> int {
    planned_span(placed(acts, planning, times, k))
}

/// The placed activities take no more than all activities can.
pub proof fn lemma_span_below(base: Seq<ActivityView>, acts: Seq<ActivityView>)
    requires
        same_network(base, acts),
    ensures
        0 <= planned_span(acts) <= horizon(base),
    decreases acts.len(),
{
    lemma_same_network(base, acts);
    if acts.len() > 0 {
        assert(cleared(base.drop_last()) =~= cleared(acts.drop_last())) by {
            assert forall|i: int| 0 <= i < acts.len() - 1 implies cleared(base.drop_last())[i]
                == cleared(acts.drop_last())[i] by {
                assert(cleared(base)[i] == cleared(acts)[i]);
            }
        }
        lemma_span_below(base.drop_last(), acts.drop_last());
        assert(acts.last() == acts[acts.len() - 1]);
        assert(base.last() == base[base.len() - 1]);
    }
}

/// The instants that all activities can take do not depend on start times.
pub proof fn lemma_horizon_network(a: Seq<ActivityView>, b: Seq<ActivityView>)
    requires
        same_network(a, b),
    ensures
        horizon(a) == horizon(b),
    decreases a.len(),
{
    lemma_same_network(a, b);
    if a.len() > 0 {
        assert(cleared(a.drop_last()) =~= cleared(b.drop_last())) by {
            assert forall|i: int| 0 <= i < a.len() - 1 implies cleared(a.drop_last())[i]
                == cleared(b.drop_last())[i] by {
                assert(cleared(a)[i] == cleared(b)[i]);
            }
        }
        lemma_horizon_network(a.drop_last(), b.drop_last());
        assert(a.last() == a[a.len() - 1]);
        assert(b.last() == b[b.len() - 1]);
    }
}

/// Where nothing is placed nothing is taken.
pub proof fn lemma_span_idle(acts: Seq<ActivityView>)
    requires
        forall|x: int| 0 <= x < acts.len() ==> !is_planned(#[trigger] acts[x]),
    ensures
        planned_span(acts) == 0,
    decreases acts.len(),
{
    if acts.len() > 0 {
        let rest = acts.drop_last();
        assert forall|x: int| 0 <= x < rest.len() implies !is_planned(#[trigger] rest[x]) by {
            assert(rest[x] == acts[x]);
        }
        lemma_span_idle(rest);
        assert(!is_planned(acts[acts.len() - 1]));
    }
}

/// Placing an activity takes its duration and one instant more.
pub proof fn lemma_span_update(acts: Seq<ActivityView>, x: int, time: i32)
    requires
        0 <= x < acts.len(),
        !is_planned(acts[x]),
        time != UNPLANNED,
    ensures
        planned_span(with_start(acts, x, time)) == planned_span(acts) + acts[x].duration + 1,
    decreases acts.len(),
{
    let next = with_start(acts, x, time);
    if x == acts.len() - 1 {
        assert(next.drop_last() =~= acts.drop_last());
    } else {
        assert(next.drop_last() =~= with_start(acts.drop_last(), x, time));
        assert(acts.drop_last()[x] == acts[x]);
        lemma_span_update(acts.drop_last(), x, time);
    }
}

} // verus!
