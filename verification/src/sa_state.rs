//! A schedule under search: a priority list, the start times that the
//! serial generation scheme gives it, and the project that carries them.

use vstd::prelude::*;
use vstd::string::StringExecFns;
use rand::rngs::StdRng;
use crate::activity::{clone_ids, contains_id, Activity};
use crate::error::ScheduleError;
use crate::model::{
    all_known, all_planned, cleared, conflict, distinct_ids, earliest_start, finish, has_id,
    is_planned, lemma_position, position, respects, well_formed, ActivityView, ProjectView,
    UNPLANNED,
};
use crate::project::Project;
use crate::rng::{draw_between, fork, seeded};
use crate::schedule::{
    adjacent, admissible, candidate, comes_before, cursor, lemma_earliest_below,
    lemma_earliest_bounds, lemma_no_conflict_after, lemma_placed_agree, lemma_placed_network,
    lemma_placed_same, lemma_placed_start, lemma_rotation_ordered, lemma_same_network,
    lemma_schedule_is, lemma_scheduled_network, lemma_scheduled_nonneg, lemma_span_below,
    lemma_span_idle, lemma_span_update, makespan_of, modest, ordered, ordered_upto, placed, rotated,
    same_network, schedule_of, scheduled, scheduled_upto, settled_before, spent, step_ok, triple_at,
};
use crate::state::State;
use crate::text::{decimal, push_decimal, push_signed, signed_decimal};
use crate::walk::{
    breadth_first, enqueued, lemma_count_cover, lemma_count_known, lemma_some_ready,
    lemma_walk_start, lemma_walk_step, ready, walk, walk_inv, walk_step,
};

verus! {

/// A priority list of the activities of a project with their start times.
#[derive(Debug)]
pub struct SaState {
    pub project: Project,
    rng: StdRng,
    attempts: usize,
    pub planning: Vec<u32>,
    pub times: Vec<i32>,
}

/// How often a state draws a place for a move before it gives up, unless it
/// is told otherwise.
pub const NEIGHBOR_ATTEMPTS: usize = 10000;

/// What a state is to the contracts: all of it but the generator.
pub struct StateView {
    pub project: ProjectView,
    pub planning: Seq<u32>,
    pub times: Seq<i32>,
}

impl View for SaState {
    type V = StateView;

    closed spec fn view(&self) -> StateView {
        StateView { project: self.project@, planning: self.planning@, times: self.times@ }
    }
}

impl SaState {
    /// How often `get_neighbor` draws a place before it gives up.
    pub closed spec fn patience(&self) -> nat {
        self.attempts as nat
    }
}

/// Every place from the third to the third from the end offers an
/// admissible move.
pub open spec fn all_admissible(s: StateView) -> bool {
    forall|i: int|
        2 <= i <= s.planning.len() - 3 ==> #[trigger] admissible(
            s.project.activities,
            s.planning,
            i,
        )
}

/// The project is well formed and the priority list is one of its
/// topological orders.
pub open spec fn searchable(s: StateView) -> bool {
    well_formed(s.project) && ordered(s.project.activities, s.planning)
}

/// The start times are those that the serial generation scheme gives to the
/// priority list, and the activities carry them.
pub open spec fn settled(s: StateView) -> bool {
    &&& scheduled(s.project.activities, s.planning, s.times)
    &&& s.project.activities == placed(
        s.project.activities,
        s.planning,
        s.times,
        s.planning.len() as int,
    )
}

/// Every placement so far is non-negative and ends, with an instant to
/// spare, by `limit`.
pub open spec fn paced(
    acts: Seq<ActivityView>,
    planning: Seq<u32>,
    times: Seq<i32>,
    k: int,
    limit: int,
) -> bool {
    forall|j: int|
        0 <= j < k ==> 0 <= #[trigger] times[j] && times[j] + acts[position(
            acts,
            planning[j],
        )].duration + 1 <= limit
}

/// In a well-formed project the placed activities have all ended by `limit`.
proof fn lemma_paced_settles(
    acts: Seq<ActivityView>,
    planning: Seq<u32>,
    times: Seq<i32>,
    k: int,
    limit: int,
)
    requires
        distinct_ids(acts),
        ordered_upto(acts, planning, k),
        paced(acts, planning, times, k, limit),
    ensures
        settled_before(placed(acts, planning, times, k), limit),
{
    let now = placed(acts, planning, times, k);
    lemma_placed_same(acts, planning, times, k);
    lemma_same_network(acts, now);
    lemma_placed_start(acts, planning, times, k);
    assert forall|x: int| 0 <= x < now.len() && is_planned(#[trigger] now[x]) implies now[x].start_time
        + now[x].duration + 1 <= limit by {
        if comes_before(planning, acts[x].id, k) {
            let j = choose|j: int|
                0 <= j < k && j < planning.len() && #[trigger] planning[j] == acts[x].id;
            lemma_position_distinct_at(acts, x);
            assert(now[position(acts, planning[j])].start_time == times[j]);
        }
    }
}

proof fn lemma_position_distinct_at(acts: Seq<ActivityView>, x: int)
    requires
        distinct_ids(acts),
        0 <= x < acts.len(),
    ensures
        position(acts, acts[x].id) == x,
{
    crate::model::lemma_position_distinct(acts, x);
}

impl SaState {
    /// The end of the project: the start of the last activity of the
    /// priority list.
    pub fn get_makespan(&self) -> (r: u32)
        requires
            self@.times.len() > 0,
            self@.times.last() >= 0,
        ensures
            r == self@.times.last(),
    {
        let last: i32 = self.times[self.times.len() - 1];
        last as u32
    }

    /// Runs the serial generation scheme over the priority list: every
    /// activity in turn gets the first instant, not before the one placed
    /// before it nor before the end of a predecessor, at which it meets no
    /// resource conflict with the activities placed before it.
    pub fn get_planning(&mut self)
        requires
            searchable(old(self)@),
        ensures
            same_network(old(self)@.project.activities, final(self)@.project.activities),
            final(self)@.project.resources == old(self)@.project.resources,
            final(self)@.planning == old(self)@.planning,
            searchable(final(self)@),
            settled(final(self)@),
            final(self).patience() == old(self).patience(),
    {
        let ghost base = self@.project.activities;
        let ghost planning = self@.planning;
        let ghost resources = self@.project.resources;
        self.project.clear_times();
        let n: usize = self.planning.len();
        let mut times: Vec<i32> = Vec::new();
        let mut i: usize = 0;
        proof {
            crate::schedule::lemma_cleared_same(base);
            lemma_same_network(base, cleared(base));
            lemma_span_idle(cleared(base));
        }
        while i < n
            invariant
                i <= n,
                n == planning.len(),
                n == base.len(),
                well_formed(ProjectView { activities: base, resources }),
                ordered(base, planning),
                self@.planning == planning,
                self@.project.resources == resources,
                self@.project.activities == placed(base, planning, times@, i as int),
                self.patience() == old(self).patience(),
                times@.len() == i,
                scheduled_upto(base, planning, times@, i as int),
                paced(base, planning, times@, i as int, spent(base, planning, times@, i as int)),
            decreases n - i,
        {
            place(&mut self.project, &self.planning, &mut times, Ghost(base));
            i += 1;
        }
        self.times = times;
        proof {
            let done = self@.project.activities;
            lemma_placed_same(base, planning, self@.times, n as int);
            lemma_network_searchable(
                StateView {
                    project: ProjectView { activities: base, resources },
                    planning,
                    times: self@.times,
                },
                self@,
            );
            lemma_placed_network(base, done, planning, self@.times, n as int);
            assert forall|j: int| 0 <= j < n implies #[trigger] step_ok(
                done,
                planning,
                self@.times,
                j,
            ) by {
                lemma_placed_network(base, done, planning, self@.times, j);
                lemma_same_network(base, done);
                assert(step_ok(base, planning, self@.times, j));
            }
        }
    }
}

/// Places the next activity of `planning`, the one at place `times.len()`:
/// it gets the first instant, from the start of the placement before it and
/// the end of its predecessors on, at which it meets no resource conflict.
fn place(
    project: &mut Project,
    planning: &Vec<u32>,
    times: &mut Vec<i32>,
    Ghost(base): Ghost<Seq<ActivityView>>,
)
    requires
        well_formed(ProjectView { activities: base, resources: old(project)@.resources }),
        old(times)@.len() < planning@.len(),
        ordered_upto(base, planning@, old(times)@.len() as int + 1),
        old(project)@.activities == placed(base, planning@, old(times)@, old(times)@.len() as int),
        scheduled_upto(base, planning@, old(times)@, old(times)@.len() as int),
        paced(
            base,
            planning@,
            old(times)@,
            old(times)@.len() as int,
            spent(base, planning@, old(times)@, old(times)@.len() as int),
        ),
    ensures
        final(project)@.resources == old(project)@.resources,
        final(times)@.len() == old(times)@.len() + 1,
        final(times)@.drop_last() == old(times)@,
        final(project)@.activities == placed(
            base,
            planning@,
            final(times)@,
            final(times)@.len() as int,
        ),
        scheduled_upto(base, planning@, final(times)@, final(times)@.len() as int),
        paced(
            base,
            planning@,
            final(times)@,
            final(times)@.len() as int,
            spent(base, planning@, final(times)@, final(times)@.len() as int),
        ),
{
    let i: usize = times.len();
    let ghost n = base.len() as int;
    let ghost planning_ = planning@;
    let ghost before = project@.activities;
    let ghost old_times = times@;
    let ghost limit: int = spent(base, planning_, old_times, i as int);
    let id: u32 = planning[i];
    proof {
        assert(ordered_upto(base, planning_, i as int));
        lemma_placed_same(base, planning_, old_times, i as int);
        lemma_same_network(base, before);
        lemma_placed_start(base, planning_, old_times, i as int);
        lemma_paced_settles(base, planning_, old_times, i as int, limit);
        lemma_position(base, id);
        lemma_span_below(base, before);
        assert(has_id(base, planning_[i as int]));
    }
    let mut time: i32 = if i == 0 {
        0
    } else {
        times[i - 1]
    };
    assert(time == cursor(old_times, i as int));
    assert(0 <= time <= limit) by {
        if i > 0 {
            assert(0 <= old_times[i - 1]);
        }
    }
    let found = project.find(id);
    let index: usize = found.unwrap();
    let current: Activity = project.activities[index].clone();
    let ghost a = current@;
    proof {
        assert(a == before[index as int]);
        assert(a == candidate(base, planning_, old_times, i as int));
        assert(a.predecessors == base[index as int].predecessors);
        assert(a.supplies == base[index as int].supplies);
        assert(all_known(base, base[index as int].predecessors));
        assert forall|m: int| 0 <= m < a.predecessors.len() implies has_id(
            before,
            #[trigger] a.predecessors[m],
        ) by {
            assert(has_id(base, a.predecessors[m]));
        }
        assert forall|m: int| 0 <= m < a.predecessors.len() implies {
            let p = before[position(before, #[trigger] a.predecessors[m])];
            is_planned(p) && finish(p) <= limit
        } by {
            let pid = a.predecessors[m];
            assert(pid == base[position(base, planning_[i as int])].predecessors[m]);
            assert(comes_before(planning_, pid, i as int));
            lemma_position(base, pid);
            let j = choose|j: int|
                0 <= j < i && j < planning_.len() && #[trigger] planning_[j] == pid;
            assert(before[position(base, planning_[j])].start_time == old_times[j]);
            assert(before[position(base, pid)].duration == base[position(base, pid)].duration);
        }
        assert(modest(a)) by {
            assert forall|k: int| 0 <= k < a.supplies.len() implies crate::model::usage_of(
                a.supplies,
                (#[trigger] a.supplies[k]).resource.id,
            ) <= a.supplies[k].resource.capacity by {
                assert(a.supplies[k] == base[index as int].supplies[k]);
            }
        }
        lemma_earliest_below(before, a.predecessors, time as int, limit);
        lemma_earliest_bounds(before, a.predecessors, time as int);
        lemma_no_conflict_after(before, a, limit, limit);
    }
    let ghost floor = earliest_start(before, a.predecessors, time as int);
    time = project.get_time_planning(current.clone(), time);
    while project.resource_conflict(current.clone(), time)
        invariant
            project@.activities == before,
            project@.resources == old(project)@.resources,
            a == current@,
            floor <= time <= limit <= i32::MAX,
            !conflict(before, a, limit),
            forall|t: int| floor <= t < time ==> #[trigger] conflict(before, a, t),
        decreases limit - time,
    {
        time = time + 1;
    }
    project.set_time(current, time);
    times.push(time);
    proof {
        let new_times = times@;
        assert(new_times == old_times.push(time));
        assert(new_times.drop_last() =~= old_times);
        lemma_placed_agree(base, planning_, old_times, planning_, new_times, i as int);
        assert(position(before, id) == position(base, id));
        assert(project@.activities == placed(base, planning_, new_times, i + 1));
        assert forall|j: int| 0 <= j < i + 1 implies #[trigger] step_ok(
            base,
            planning_,
            new_times,
            j,
        ) by {
            lemma_placed_agree(base, planning_, old_times, planning_, new_times, j);
            if j < i {
                assert(step_ok(base, planning_, old_times, j));
                assert(cursor(new_times, j) == cursor(old_times, j));
            } else {
                assert(cursor(new_times, j) == cursor(old_times, j));
            }
        }
        assert(!is_planned(before[index as int])) by {
            if comes_before(planning_, base[index as int].id, i as int) {
                let j = choose|j: int|
                    0 <= j < i && j < planning_.len() && #[trigger] planning_[j]
                        == base[index as int].id;
                assert(planning_[j] != planning_[i as int]);
            }
        }
        lemma_span_update(before, index as int, time);
        assert(spent(base, planning_, new_times, i + 1) == limit + base[index as int].duration
            + 1);
        assert(paced(
            base,
            planning_,
            new_times,
            i + 1,
            spent(base, planning_, new_times, i + 1),
        ));
    }
}

/// The neighbour that the move at `i` leads to: the three activities around
/// `i` are rotated in the priority list, the start times are those that the
/// serial generation scheme gives to the new list, and the activities carry
/// them.
pub open spec fn neighbor_of(s: StateView, i: int) -> StateView {
    let planning = rotated(s.planning, i);
    let times = schedule_of(s.project.activities, planning);
    StateView {
        project: ProjectView {
            activities: placed(s.project.activities, planning, times, planning.len() as int),
            resources: s.project.resources,
        },
        planning,
        times,
    }
}

/// The cost of the neighbour that the move at `i` leads to: the end of the
/// project once the three activities around `i` have been rotated.
pub open spec fn neighbor_cost(s: StateView, i: int) -> int {
    makespan_of(s.project.activities, rotated(s.planning, i))
}

/// A settled state of a searchable project has a last start time, and it is
/// not negative.
pub proof fn lemma_settled_cost(s: StateView)
    requires
        searchable(s),
        settled(s),
    ensures
        s.times.len() == s.planning.len(),
        s.times.len() >= 2,
        s.times.last() >= 0,
        s.times.last() == makespan_of(s.project.activities, s.planning),
{
    let n = s.planning.len() as int;
    assert(step_ok(s.project.activities, s.planning, s.times, n - 1));
    lemma_scheduled_nonneg(s.project.activities, s.planning, s.times, n - 1);
    lemma_schedule_is(s.project.activities, s.planning, s.times);
}

impl Clone for SaState {
    fn clone(&self) -> (r: Self)
        ensures
            r@ == self@,
            r.patience() == self.patience(),
    {
        SaState {
            project: self.project.clone(),
            rng: fork(&self.rng),
            attempts: self.attempts,
            planning: clone_ids(&self.planning),
            times: clone_times(&self.times),
        }
    }
}

/// Copies a list of start times.
pub fn clone_times(v: &Vec<i32>) -> (r: Vec<i32>)
    ensures
        r@ == v@,
{
    let mut r: Vec<i32> = Vec::new();
    let mut i: usize = 0;
    while i < v.len()
        invariant
            i <= v.len(),
            r@ == v@.take(i as int),
        decreases v.len() - i,
    {
        r.push(v[i]);
        assert(v@.take(i + 1) == v@.take(i as int).push(v@[i as int]));
        i += 1;
    }
    assert(v@.take(v.len() as int) == v@);
    r
}

impl SaState {
    /// Rotates the three activities around `index` in the priority list and
    /// runs the serial generation scheme again.
    pub fn change_planning(&mut self, index: usize)
        requires
            searchable(old(self)@),
            admissible(old(self)@.project.activities, old(self)@.planning, index as int),
        ensures
            same_network(old(self)@.project.activities, final(self)@.project.activities),
            final(self)@.project.resources == old(self)@.project.resources,
            final(self)@.planning == rotated(old(self)@.planning, index as int),
            searchable(final(self)@),
            settled(final(self)@),
            final(self)@.times.last() == neighbor_cost(old(self)@, index as int),
            final(self)@ == neighbor_of(old(self)@, index as int),
            final(self).patience() == old(self).patience(),
    {
        let n: usize = self.planning.len();
        let before: u32 = self.planning[index - 1];
        let current: u32 = self.planning[index];
        let next: u32 = self.planning[index + 1];
        self.planning[index - 1] = next;
        self.planning[index] = before;
        self.planning[index + 1] = current;
        proof {
            assert(self@.planning == rotated(old(self)@.planning, index as int));
            lemma_rotation_ordered(
                old(self)@.project.activities,
                old(self)@.planning,
                index as int,
            );
        }
        self.get_planning();
        proof {
            lemma_scheduled_network(
                self@.project.activities,
                old(self)@.project.activities,
                self@.planning,
                self@.times,
            );
            lemma_schedule_is(old(self)@.project.activities, self@.planning, self@.times);
            lemma_placed_network(
                old(self)@.project.activities,
                self@.project.activities,
                self@.planning,
                self@.times,
                self@.planning.len() as int,
            );
        }
    }

    /// Whether the activities with identities `u` and `v` are joined by an arc.
    fn joined(&self, u: u32, v: u32) -> (r: bool)
        requires
            has_id(self@.project.activities, u),
            has_id(self@.project.activities, v),
        ensures
            r == adjacent(self@.project.activities, u, v),
    {
        let a: usize = self.project.find(u).unwrap();
        let b: usize = self.project.find(v).unwrap();
        contains_id(&self.project.activities[a].predecessors, v) || contains_id(
            &self.project.activities[a].successors,
            v,
        ) || contains_id(&self.project.activities[b].predecessors, u) || contains_id(
            &self.project.activities[b].successors,
            u,
        )
    }

    /// Whether the move at `index` is admissible: the three activities
    /// around it lie inside the list and no arc joins two of them.
    pub fn is_admissible(&self, index: usize) -> (r: bool)
        requires
            searchable(self@),
        ensures
            r == admissible(self@.project.activities, self@.planning, index as int),
    {
        if index < 1 || index >= self.planning.len() - 1 {
            return false;
        }
        let p: u32 = self.planning[index - 1];
        let q: u32 = self.planning[index];
        let r: u32 = self.planning[index + 1];
        proof {
            let planning = self@.planning;
            assert(has_id(self@.project.activities, planning[index - 1]));
            assert(has_id(self@.project.activities, planning[index as int]));
            assert(has_id(self@.project.activities, planning[index + 1]));
        }
        !self.joined(p, q) && !self.joined(q, r) && !self.joined(p, r)
    }

    /// The cost of the neighbour that the admissible move at `index` leads
    /// to, and the three activities that it rotates. The state itself stays
    /// as it is.
    pub fn evaluate(&self, index: usize) -> (r: (u32, Vec<u32>))
        requires
            searchable(self@),
            admissible(self@.project.activities, self@.planning, index as int),
        ensures
            r.0 == neighbor_cost(self@, index as int),
            r.1@ == triple_at(self@.planning, index as int),
    {
        let n: usize = self.planning.len();
        let mut neighbor = self.clone();
        neighbor.change_planning(index);
        proof {
            lemma_settled_cost(neighbor@);
        }
        let cost: u32 = neighbor.get_makespan();
        let mut triple: Vec<u32> = Vec::new();
        triple.push(self.planning[index - 1]);
        triple.push(self.planning[index]);
        triple.push(self.planning[index + 1]);
        assert(triple@ =~= triple_at(self@.planning, index as int));
        (cost, triple)
    }
}

/// A state stays searchable when only start times and times change.
pub proof fn lemma_network_searchable(a: StateView, b: StateView)
    requires
        well_formed(a.project),
        same_network(a.project.activities, b.project.activities),
        a.project.resources == b.project.resources,
        ordered(a.project.activities, b.planning),
    ensures
        searchable(b),
{
    crate::schedule::lemma_network_well_formed(a.project, b.project);
    crate::schedule::lemma_ordered_network(a.project.activities, b.project.activities, b.planning);
}

/// With the first placements made, the activities whose predecessors all
/// carry a start time are those that are ready.
proof fn lemma_ready_planned(
    base: Seq<ActivityView>,
    planning: Seq<u32>,
    times: Seq<i32>,
    v: u32,
    limit: int,
)
    requires
        distinct_ids(base),
        crate::model::arcs_known(base),
        ordered_upto(base, planning, planning.len() as int),
        paced(base, planning, times, planning.len() as int, limit),
        has_id(base, v),
    ensures
        all_planned(
            placed(base, planning, times, planning.len() as int),
            base[position(base, v)].predecessors,
        ) == ready(base, planning, v),
{
    let k = planning.len() as int;
    let now = placed(base, planning, times, k);
    let preds = base[position(base, v)].predecessors;
    lemma_position(base, v);
    lemma_placed_same(base, planning, times, k);
    lemma_same_network(base, now);
    lemma_placed_start(base, planning, times, k);
    assert(all_known(base, preds));
    assert forall|m: int| 0 <= m < preds.len() implies (is_planned(
        now[position(now, #[trigger] preds[m])],
    ) <==> planning.contains(preds[m])) by {
        let u = preds[m];
        assert(has_id(base, u));
        lemma_position(base, u);
        let x = position(base, u);
        if planning.contains(u) {
            let j = choose|j: int| 0 <= j < planning.len() && planning[j] == u;
            assert(now[position(base, planning[j])].start_time == times[j]);
            assert(0 <= times[j]);
        } else {
            assert(!comes_before(planning, base[x].id, k));
            assert(now[x].start_time == UNPLANNED);
        }
    }
    if ready(base, planning, v) {
        assert(all_planned(now, preds));
    }
    if all_planned(now, preds) {
        assert forall|m: int| 0 <= m < preds.len() implies planning.contains(
            #[trigger] preds[m],
        ) by {
            assert(is_planned(now[position(now, preds[m])]));
        }
    }
}

impl SaState {
    /// The first schedule of a project: the activities in the order of a
    /// breadth-first walk from the source, with the start times that the
    /// serial generation scheme gives to that order. `seed` starts the
    /// generator that the moves of the state will be drawn from.
    pub fn new(project: Project, seed: u64) -> (s: SaState)
        requires
            well_formed(project@),
        ensures
            same_network(project@.activities, s@.project.activities),
            s@.project.resources == project@.resources,
            breadth_first(project@.activities, s@.planning),
            searchable(s@),
            settled(s@),
            s.patience() == NEIGHBOR_ATTEMPTS,
    {
        SaState::get_initial_state(project, seed)
    }

    fn get_initial_state(project: Project, seed: u64) -> (s: SaState)
        requires
            well_formed(project@),
        ensures
            same_network(project@.activities, s@.project.activities),
            s@.project.resources == project@.resources,
            breadth_first(project@.activities, s@.planning),
            searchable(s@),
            settled(s@),
            s.patience() == NEIGHBOR_ATTEMPTS,
    {
        let mut project = project;
        let ghost base = project@.activities;
        let ghost resources = project@.resources;
        let ghost frame = ProjectView { activities: base, resources };
        let ghost rank = choose|rank: Seq<nat>| respects(base, rank);
        project.clear_times();
        let n: usize = project.activities.len();
        let mut planning: Vec<u32> = Vec::new();
        let mut times: Vec<i32> = Vec::new();
        let mut queue: Vec<u32> = Vec::new();
        proof {
            assert(base.len() >= 2);
            assert(cleared(base).len() == base.len());
            assert(project@.activities.len() == project.activities@.len());
            assert(project@.activities[0] == project.activities@[0]@);
            assert(cleared(base)[0].id == base[0].id);
        }
        let source: u32 = project.activities[0].id;
        queue.push(source);
        let ghost mut steps: nat = 0;
        let ghost mut stalls: nat = 0;
        proof {
            crate::schedule::lemma_cleared_same(base);
            lemma_same_network(base, cleared(base));
            lemma_span_idle(cleared(base));
            lemma_walk_start(base);
            assert(queue@ =~= walk(base, 0).queue);
            assert(planning@ =~= walk(base, 0).planned);
        }
        while queue.len() != 0
            invariant
                n == base.len(),
                frame == (ProjectView { activities: base, resources }),
                well_formed(frame),
                respects(base, rank),
                project@.resources == resources,
                project@.activities == placed(base, planning@, times@, planning@.len() as int),
                times@.len() == planning@.len(),
                planning@.len() <= n,
                walk(base, steps).queue == queue@,
                walk(base, steps).planned == planning@,
                walk_inv(base, walk(base, steps)),
                scheduled_upto(base, planning@, times@, planning@.len() as int),
                paced(
                    base,
                    planning@,
                    times@,
                    planning@.len() as int,
                    spent(base, planning@, times@, planning@.len() as int),
                ),
                stalls <= queue@.len(),
                forall|a: int|
                    queue@.len() - stalls <= a < queue@.len() ==> !ready(
                        base,
                        planning@,
                        #[trigger] queue@[a],
                    ),
            decreases n - planning@.len(), queue@.len() - stalls,
        {
            let ghost w = walk(base, steps);
            let ghost old_queue = queue@;
            let ghost old_planning = planning@;
            let cur: u32 = queue.remove(0);
            let ghost rest = queue@;
            proof {
                assert(rest =~= old_queue.drop_first());
                assert(has_id(base, old_queue[0]));
                lemma_position(base, cur);
                lemma_placed_same(base, old_planning, times@, old_planning.len() as int);
                lemma_same_network(base, project@.activities);
                lemma_ready_planned(
                    base,
                    old_planning,
                    times@,
                    cur,
                    spent(base, old_planning, times@, old_planning.len() as int),
                );
                lemma_walk_step(frame, w);
                assert(!old_planning.contains(old_queue[0]));
                let x = position(base, cur);
                lemma_some_ready(frame, w, x, rank);
            }
            let found = project.find(cur);
            let index: usize = found.unwrap();
            let current: Activity = project.activities[index].clone();
            assert(current@.predecessors == base[position(base, cur)].predecessors);
            assert(current@.successors == base[position(base, cur)].successors);
            proof {
                assert(all_known(base, base[position(base, cur)].predecessors));
                assert forall|m: int| 0 <= m < current@.predecessors.len() implies has_id(
                    project@.activities,
                    #[trigger] current@.predecessors[m],
                ) by {
                    assert(has_id(base, current@.predecessors[m]));
                }
            }
            if !project.predecessors_planned(current.clone()) {
                queue.push(cur);
                proof {
                    assert(!ready(base, old_planning, cur));
                    assert(queue@ =~= walk_step(base, w).queue);
                    // a ready activity waits, so not all of the queue has stalled
                    if stalls == old_queue.len() {
                        let a = choose|a: int|
                            0 <= a < w.queue.len() && ready(base, w.planned, #[trigger] w.queue[a]);
                        assert(!ready(base, old_planning, old_queue[a]));
                        assert(false);
                    }
                    assert forall|a: int|
                        queue@.len() - (stalls + 1) <= a < queue@.len() implies !ready(
                        base,
                        planning@,
                        #[trigger] queue@[a],
                    ) by {
                        if a < queue@.len() - 1 {
                            assert(queue@[a] == old_queue[a + 1]);
                        }
                    }
                    steps = steps + 1;
                    stalls = stalls + 1;
                }
            } else {
                planning.push(cur);
                proof {
                    assert(ready(base, old_planning, cur));
                    assert(planning@ =~= walk_step(base, w).planned);
                    let next = walk_step(base, w);
                    lemma_count_known(base, planning@);
                    lemma_placed_agree(
                        base,
                        old_planning,
                        times@,
                        planning@,
                        times@,
                        old_planning.len() as int,
                    );
                    assert forall|i: int|
                        0 <= i < old_planning.len() implies #[trigger] step_ok(
                        base,
                        planning@,
                        times@,
                        i,
                    ) by {
                        lemma_placed_agree(base, old_planning, times@, planning@, times@, i);
                        assert(step_ok(base, old_planning, times@, i));
                        assert(planning@[i] == old_planning[i]);
                    }
                    assert forall|j: int| 0 <= j < old_planning.len() implies 0
                        <= #[trigger] times@[j] && times@[j] + base[position(
                        base,
                        planning@[j],
                    )].duration + 1 <= spent(
                        base,
                        planning@,
                        times@,
                        old_planning.len() as int,
                    ) by {
                        assert(planning@[j] == old_planning[j]);
                    }
                }
                place(&mut project, &planning, &mut times, Ghost(base));
                proof {
                    lemma_placed_same(base, planning@, times@, planning@.len() as int);
                    lemma_same_network(base, project@.activities);
                }
                let mut x: usize = 0;
                while x < n
                    invariant
                        x <= n,
                        n == base.len(),
                        n == project.activities.len(),
                        same_network(base, project@.activities),
                        current@.successors == base[position(base, cur)].successors,
                        queue@ == enqueued(base, rest, current@.successors, x as int),
                    decreases n - x,
                {
                    proof {
                        lemma_same_network(base, project@.activities);
                        assert(project@.activities[x as int].id == base[x as int].id);
                    }
                    let xid: u32 = project.activities[x].id;
                    if contains_id(&current.successors, xid) && !contains_id(&queue, xid) {
                        queue.push(xid);
                    }
                    x += 1;
                }
                proof {
                    assert(queue@ == walk_step(base, w).queue);
                    steps = steps + 1;
                    stalls = 0;
                }
            }
        }
        proof {
            let w = walk(base, steps);
            assert forall|x: int| 0 <= x < base.len() implies planning@.contains(
                (#[trigger] base[x]).id,
            ) by {
                if !planning@.contains(base[x].id) {
                    lemma_some_ready(frame, w, x, rank);
                }
            }
            lemma_count_cover(base, planning@);
            assert(ordered(base, planning@));
            assert(breadth_first(base, planning@));
        }
        let s = SaState {
            project,
            rng: seeded(seed),
            attempts: NEIGHBOR_ATTEMPTS,
            planning,
            times,
        };
        proof {
            let done = s@.project.activities;
            let k = s@.planning.len() as int;
            lemma_placed_same(base, s@.planning, s@.times, k);
            lemma_placed_network(base, done, s@.planning, s@.times, k);
            assert forall|j: int| 0 <= j < k implies #[trigger] step_ok(
                done,
                s@.planning,
                s@.times,
                j,
            ) by {
                lemma_placed_network(base, done, s@.planning, s@.times, j);
                lemma_same_network(base, done);
                assert(step_ok(base, s@.planning, s@.times, j));
            }
            lemma_network_searchable(
                StateView { project: frame, planning: s@.planning, times: s@.times },
                s@,
            );
        }
        s
    }
}

/// The first `k` numbers of `items`, each but the one at place `len - 1`
/// followed by a comma and a blank.
pub open spec fn listing(items: Seq<int>, len: int, k: int) -> Seq<char>
    decreases k,
{
    if k <= 0 {
        Seq::empty()
    } else {
        listing(items, len, k - 1) + signed_decimal(items[k - 1]) + (if k - 1 != len - 1 {
            seq![',', ' ']
        } else {
            Seq::empty()
        })
    }
}

/// The priority list and the start times as text, each in brackets on a
/// line of its own.
pub open spec fn state_text(s: StateView) -> Seq<char> {
    seq![' ', ' ', ' ', '['] + listing(
        s.planning.map_values(|x: u32| x as int),
        s.planning.len() as int,
        s.planning.len() as int,
    ) + seq![']', '\n', ' ', ' ', ' ', ' ', '['] + listing(
        s.times.map_values(|x: i32| x as int),
        s.planning.len() as int,
        s.times.len() as int,
    ) + seq![']']
}

impl SaState {
    /// Sets how often `get_neighbor` draws a place before it gives up.
    pub fn set_attempts(&mut self, attempts: usize)
        ensures
            final(self)@ == old(self)@,
            final(self).patience() == attempts,
    {
        self.attempts = attempts;
    }

    /// Draws places in the priority list at random, from the third to the
    /// third from the end, until the move at one of them is admissible, and
    /// gives the cost of the neighbour it leads to, the place, and the three
    /// activities it rotates. Where the list is too short for a move, or no
    /// draw within the attempts allowed gave an admissible one, the place is
    /// 0, the cost that of the state itself and no activity is named. The
    /// state stays as it is.
    pub fn get_neighbor(&mut self) -> (r: (u32, usize, Vec<u32>))
        requires
            searchable(old(self)@),
            settled(old(self)@),
        ensures
            final(self)@ == old(self)@,
            r.1 != 0 ==> 2 <= r.1 <= old(self)@.planning.len() - 3 && admissible(
                old(self)@.project.activities,
                old(self)@.planning,
                r.1 as int,
            ) && r.0 == neighbor_cost(old(self)@, r.1 as int) && r.2@ == triple_at(
                old(self)@.planning,
                r.1 as int,
            ),
            r.1 == 0 ==> r.0 == old(self)@.times.last() && r.2@.len() == 0,
            final(self).patience() == old(self).patience(),
            old(self).patience() >= 1 && old(self)@.planning.len() >= 5 && all_admissible(
                old(self)@,
            ) ==> r.1 != 0,
    {
        proof {
            lemma_settled_cost(self@);
        }
        let n: usize = self.planning.len();
        if n >= 5 {
            let mut left: usize = self.attempts;
            while left > 0
                invariant
                    self@ == old(self)@,
                    self.patience() == old(self).patience(),
                    n == self@.planning.len(),
                    n >= 5,
                    searchable(self@),
                    left < old(self).patience() ==> !all_admissible(self@),
                decreases left,
            {
                left -= 1;
                let i: usize = draw_between(&mut self.rng, 2, n - 2);
                if self.is_admissible(i) {
                    let found = self.evaluate(i);
                    return (found.0, i, found.1);
                }
            }
        }
        (self.get_makespan(), 0, Vec::new())
    }

    /// The priority list and the start times as text.
    pub fn get_string(&self) -> (r: String)
        ensures
            r@ == state_text(self@),
    {
        proof {
            reveal_strlit("   [");
            reveal_strlit(", ");
            reveal_strlit("]");
            reveal_strlit("\n");
            reveal_strlit("    [");
        }
        let ghost ids = self@.planning.map_values(|x: u32| x as int);
        let ghost starts = self@.times.map_values(|x: i32| x as int);
        let ghost len = self@.planning.len() as int;
        let n: usize = self.planning.len();
        let mut text = String::from_str("   [");
        assert(text@ =~= seq![' ', ' ', ' ', '['] + listing(ids, len, 0));
        let mut i: usize = 0;
        while i < n
            invariant
                i <= n,
                n == self@.planning.len(),
                len == n,
                ids == self@.planning.map_values(|x: u32| x as int),
                text@ == seq![' ', ' ', ' ', '['] + listing(ids, len, i as int),
            decreases n - i,
        {
            proof {
                reveal_strlit(", ");
            }
            let ghost before = text@;
            push_decimal(&mut text, self.planning[i] as u64);
            assert(ids[i as int] == self@.planning[i as int]);
            assert(signed_decimal(ids[i as int]) == decimal(self.planning[i as int] as nat));
            if i + 1 != n {
                text.append(", ");
            }
            assert(listing(ids, len, i + 1) == listing(ids, len, i as int) + signed_decimal(
                ids[i as int],
            ) + (if i as int != len - 1 {
                seq![',', ' ']
            } else {
                Seq::empty()
            }));
            assert(text@ =~= seq![' ', ' ', ' ', '['] + listing(ids, len, i + 1));
            i += 1;
        }
        text.append("]");
        text.append("\n");
        text.append("    [");
        let ghost head = seq![' ', ' ', ' ', '['] + listing(ids, len, len) + seq![
            ']',
            '\n',
            ' ',
            ' ',
            ' ',
            ' ',
            '[',
        ];
        assert(text@ =~= head + listing(starts, len, 0));
        let m: usize = self.times.len();
        let mut i: usize = 0;
        while i < m
            invariant
                i <= m,
                m == self@.times.len(),
                n == self@.planning.len(),
                len == n,
                starts == self@.times.map_values(|x: i32| x as int),
                text@ == head + listing(starts, len, i as int),
            decreases m - i,
        {
            proof {
                reveal_strlit(", ");
            }
            push_signed(&mut text, self.times[i] as i64);
            assert(starts[i as int] == self@.times[i as int]);
            if i + 1 != n {
                text.append(", ");
            }
            assert(listing(starts, len, i + 1) == listing(starts, len, i as int) + signed_decimal(
                starts[i as int],
            ) + (if i as int != len - 1 {
                seq![',', ' ']
            } else {
                Seq::empty()
            }));
            assert(text@ =~= head + listing(starts, len, i + 1));
            i += 1;
        }
        text.append("]");
        assert(text@ =~= state_text(self@));
        text
    }
}

impl State for SaState {
    open spec fn legal(v: StateView) -> bool {
        searchable(v) && settled(v)
    }

    open spec fn cost(v: StateView) -> int {
        v.times.last() as int
    }

    open spec fn admits(v: StateView, movement: int) -> bool {
        admissible(v.project.activities, v.planning, movement)
    }

    open spec fn move_cost(v: StateView, movement: int) -> int {
        neighbor_cost(v, movement)
    }

    open spec fn move_set(v: StateView, movement: int) -> Seq<u32> {
        triple_at(v.planning, movement)
    }

    open spec fn after(v: StateView, movement: int) -> StateView {
        neighbor_of(v, movement)
    }

    open spec fn offers(&self) -> bool {
        self.patience() >= 1 && self@.planning.len() >= 5 && all_admissible(self@)
    }

    fn get_neighbor(&mut self) -> (r: (u32, usize, Vec<u32>)) {
        SaState::get_neighbor(self)
    }

    fn set_neighbor(&mut self, movement: usize) {
        self.change_planning(movement);
    }

    fn get_cost(&self) -> (c: u32) {
        proof {
            lemma_settled_cost(self@);
        }
        self.get_makespan()
    }

    fn to_string(&self) -> (r: String)
        ensures
            r@ == state_text(self@),
    {
        self.get_string()
    }

    fn to_file(&self) -> (r: String)
        ensures
            r@ == (match crate::chart::chart_of(self@) {
                Some(file) => file,
                None => Seq::empty(),
            }),
    {
        match self.get_svg() {
            Some(file) => file,
            None => String::new(),
        }
    }
}

/// The activity at `i` comes before the one at `j` when the activities are
/// sorted by start time and those of equal start time keep their order.
pub open spec fn sorts_before(acts: Seq<ActivityView>, i: int, j: int) -> bool {
    acts[i].start_time < acts[j].start_time || (acts[i].start_time == acts[j].start_time && i < j)
}

/// `order` lists the places of `acts` sorted by start time, places of equal
/// start time in their own order.
pub open spec fn sorted_by_start(acts: Seq<ActivityView>, order: Seq<usize>) -> bool {
    &&& order.len() == acts.len()
    &&& forall|a: int| 0 <= a < order.len() ==> (#[trigger] order[a]) < acts.len()
    &&& forall|a: int, b: int|
        0 <= a < b < order.len() ==> sorts_before(acts, #[trigger] order[a] as int, #[trigger] order[b] as int)
}

/// `planning` and `times` are the identities and the start times of `acts`
/// in the order `order`.
pub open spec fn read_off(
    acts: Seq<ActivityView>,
    order: Seq<usize>,
    planning: Seq<u32>,
    times: Seq<i32>,
) -> bool {
    &&& planning.len() == order.len()
    &&& times.len() == order.len()
    &&& forall|a: int|
        0 <= a < order.len() ==> #[trigger] planning[a] == acts[order[a] as int].id && times[a]
            == acts[order[a] as int].start_time
}

/// The order by start time is unique.
pub proof fn lemma_sorted_unique(acts: Seq<ActivityView>, first: Seq<usize>, second: Seq<usize>, k: int)
    requires
        sorted_by_start(acts, first),
        sorted_by_start(acts, second),
        0 <= k <= acts.len(),
    ensures
        forall|a: int| 0 <= a < k ==> first[a] == second[a],
    decreases k,
{
    if k > 0 {
        lemma_sorted_unique(acts, first, second, k - 1);
        let a = k - 1;
        if first[a] != second[a] {
            // each of the two places stands later in the other order
            lemma_sorted_covers(acts, first, second[a]);
            lemma_sorted_covers(acts, second, first[a]);
            let there = choose|b: int| 0 <= b < first.len() && first[b] == second[a];
            let here = choose|b: int| 0 <= b < second.len() && second[b] == first[a];
            if there < a {
                assert(first[there] == second[there]);
                assert(sorts_before(acts, second[there] as int, second[a] as int));
            }
            if here < a {
                assert(second[here] == first[here]);
                assert(sorts_before(acts, first[here] as int, first[a] as int));
            }
            assert(sorts_before(acts, first[a] as int, first[there] as int));
            assert(sorts_before(acts, second[a] as int, second[here] as int));
        }
    }
}

/// An order by start time holds every place.
pub proof fn lemma_sorted_covers(acts: Seq<ActivityView>, order: Seq<usize>, x: usize)
    requires
        sorted_by_start(acts, order),
        x < acts.len(),
    ensures
        order.contains(x),
{
    broadcast use vstd::seq_lib::seq_to_set_is_finite;

    let n = acts.len() as int;
    assert(order.no_duplicates()) by {
        assert forall|i: int, j: int|
            0 <= i < order.len() && 0 <= j < order.len() && i != j implies order[i] != order[j] by {
            if i < j {
                assert(sorts_before(acts, order[i] as int, order[j] as int));
            } else {
                assert(sorts_before(acts, order[j] as int, order[i] as int));
            }
        }
    }
    order.unique_seq_to_set();
    let all = Set::new(|v: usize| v < n);
    assert(all =~= vstd::set_lib::set_int_range(0, n).map(|v: int| v as usize)) by {
        assert forall|v: usize| all.contains(v) implies vstd::set_lib::set_int_range(0, n).map(
            |v: int| v as usize,
        ).contains(v) by {
            assert(vstd::set_lib::set_int_range(0, n).contains(v as int));
        }
    }
    vstd::set_lib::lemma_int_range(0, n);
    vstd::set_lib::lemma_map_size_bound(
        vstd::set_lib::set_int_range(0, n),
        all,
        |v: int| v as usize,
    );
    assert(order.to_set().subset_of(all)) by {
        assert forall|v: usize| order.to_set().contains(v) implies all.contains(v) by {
            let a = choose|a: int| 0 <= a < order.len() && order[a] == v;
            assert(order[a] < acts.len());
        }
    }
    vstd::set_lib::lemma_len_subset(order.to_set(), all);
    vstd::set_lib::lemma_subset_equality(order.to_set(), all);
    assert(all.contains(x));
}

impl SaState {
    /// A state read off a project that carries start times already: the
    /// activities sorted by start time, those of equal start time in their
    /// own order. Where the source does not come first in that order or the
    /// sink not last, this is a schema violation; a project without
    /// activities is out of range. `seed` starts the generator that the
    /// moves of the state will be drawn from.
    pub fn from_project_planned(project: Project, seed: u64) -> (r: Result<
        SaState,
        ScheduleError,
    >)
        ensures
            match r {
                Ok(s) => {
                    &&& s@.project == project@
                    &&& s@.planning.len() > 0
                    &&& s@.planning[0] == project@.activities[0].id
                    &&& s@.planning.last() == project@.activities.last().id
                    &&& exists|order: Seq<usize>|
                        #[trigger] sorted_by_start(project@.activities, order) && read_off(
                            project@.activities,
                            order,
                            s@.planning,
                            s@.times,
                        )
                },
                Err(e) => if project@.activities.len() == 0 {
                    e == ScheduleError::ParameterOutOfRange
                } else {
                    &&& e == ScheduleError::SchemaViolation
                    &&& exists|order: Seq<usize>|
                        #[trigger] sorted_by_start(project@.activities, order) && (
                        project@.activities[order[0] as int].id != project@.activities[0].id
                            || project@.activities[order.last() as int].id
                            != project@.activities.last().id)
                },
            },
    {
        SaState::get_state(project, seed)
    }

    fn get_state(project: Project, seed: u64) -> (r: Result<SaState, ScheduleError>)
        ensures
            match r {
                Ok(s) => {
                    &&& s@.project == project@
                    &&& s@.planning.len() > 0
                    &&& s@.planning[0] == project@.activities[0].id
                    &&& s@.planning.last() == project@.activities.last().id
                    &&& exists|order: Seq<usize>|
                        #[trigger] sorted_by_start(project@.activities, order) && read_off(
                            project@.activities,
                            order,
                            s@.planning,
                            s@.times,
                        )
                },
                Err(e) => if project@.activities.len() == 0 {
                    e == ScheduleError::ParameterOutOfRange
                } else {
                    &&& e == ScheduleError::SchemaViolation
                    &&& exists|order: Seq<usize>|
                        #[trigger] sorted_by_start(project@.activities, order) && (
                        project@.activities[order[0] as int].id != project@.activities[0].id
                            || project@.activities[order.last() as int].id
                            != project@.activities.last().id)
                },
            },
    {
        let ghost acts = project@.activities;
        let n: usize = project.activities.len();
        assert(acts.len() == n);
        if n == 0 {
            return Err(ScheduleError::ParameterOutOfRange);
        }
        let mut order: Vec<usize> = Vec::new();
        let mut i: usize = 0;
        while i < n
            invariant
                i <= n,
                n == acts.len(),
                acts == project@.activities,
                order@.len() == i,
                forall|a: int| 0 <= a < order@.len() ==> (#[trigger] order@[a]) < i,
                forall|a: int, b: int|
                    0 <= a < b < order@.len() ==> sorts_before(
                        acts,
                        #[trigger] order@[a] as int,
                        #[trigger] order@[b] as int,
                    ),
            decreases n - i,
        {
            let key: i32 = project.activities[i].start_time;
            assert(key == acts[i as int].start_time);
            let mut at: usize = 0;
            while at < order.len() && project.activities[order[at]].start_time <= key
                invariant
                    at <= order@.len(),
                    i < n,
                    n == acts.len(),
                    acts == project@.activities,
                    key == acts[i as int].start_time,
                    forall|a: int| 0 <= a < order@.len() ==> (#[trigger] order@[a]) < i,
                    forall|a: int|
                        0 <= a < at ==> acts[(#[trigger] order@[a]) as int].start_time <= key,
                decreases order@.len() - at,
            {
                assert(project.activities@[order@[at as int] as int]@ == acts[order@[at as int] as int]);
                at += 1;
            }
            let ghost before = order@;
            proof {
                if at < order.len() {
                    assert(project.activities@[order@[at as int] as int]@ == acts[order@[at as int] as int]);
                    assert(acts[before[at as int] as int].start_time > key);
                }
            }
            order.insert(at, i);
            proof {
                let now = order@;
                assert forall|a: int, b: int| 0 <= a < b < now.len() implies sorts_before(
                    acts,
                    #[trigger] now[a] as int,
                    #[trigger] now[b] as int,
                ) by {
                    if b < at {
                        assert(now[a] == before[a] && now[b] == before[b]);
                    } else if b == at {
                        assert(now[a] == before[a]);
                        assert(before[a] < i);
                    } else if a < at {
                        assert(now[a] == before[a] && now[b] == before[b - 1]);
                    } else if a == at {
                        assert(now[b] == before[b - 1]);
                        if at < b - 1 {
                            assert(sorts_before(acts, before[at as int] as int, before[b - 1] as int));
                        }
                    } else {
                        assert(now[a] == before[a - 1] && now[b] == before[b - 1]);
                    }
                }
                assert forall|a: int| 0 <= a < now.len() implies (#[trigger] now[a]) < i + 1 by {
                    if a < at {
                        assert(now[a] == before[a]);
                    } else if a > at {
                        assert(now[a] == before[a - 1]);
                    }
                }
            }
            i += 1;
        }
        assert(sorted_by_start(acts, order@));
        let first: usize = order[0];
        let last: usize = order[n - 1];
        assert(project.activities@[first as int]@ == acts[first as int]);
        assert(project.activities@[last as int]@ == acts[last as int]);
        assert(project.activities@[0]@ == acts[0]);
        assert(project.activities@[n as int - 1]@ == acts[n as int - 1]);
        if project.activities[first].id != project.activities[0].id
            || project.activities[last].id != project.activities[n - 1].id {
            return Err(ScheduleError::SchemaViolation);
        }
        let mut planning: Vec<u32> = Vec::new();
        let mut times: Vec<i32> = Vec::new();
        let mut k: usize = 0;
        while k < n
            invariant
                k <= n,
                n == acts.len(),
                acts == project@.activities,
                sorted_by_start(acts, order@),
                planning@.len() == k,
                times@.len() == k,
                forall|a: int|
                    0 <= a < k ==> #[trigger] planning@[a] == acts[order@[a] as int].id && times@[a]
                        == acts[order@[a] as int].start_time,
            decreases n - k,
        {
            let at: usize = order[k];
            assert(project.activities@[at as int]@ == acts[at as int]);
            planning.push(project.activities[at].id);
            times.push(project.activities[at].start_time);
            k += 1;
        }
        assert(read_off(acts, order@, planning@, times@));
        Ok(
            SaState {
                project,
                rng: seeded(seed),
                attempts: NEIGHBOR_ATTEMPTS,
                planning,
                times,
            },
        )
    }
}

impl SaState {
    /// Whether the activity with identity `id` stands in the priority list
    /// before place `i`.
    fn listed_before(&self, id: u32, i: usize) -> (r: bool)
        requires
            i <= self@.planning.len(),
        ensures
            r == comes_before(self@.planning, id, i as int),
    {
        let mut j: usize = 0;
        while j < i
            invariant
                j <= i <= self@.planning.len(),
                forall|a: int| 0 <= a < j ==> self@.planning[a] != id,
            decreases i - j,
        {
            if self.planning[j] == id {
                return true;
            }
            j += 1;
        }
        false
    }

    /// Whether the priority list is one of the project: every activity
    /// once, each after all of its predecessors.
    pub fn is_priority_list(&self) -> (r: bool)
        ensures
            r == ordered(self@.project.activities, self@.planning),
    {
        let ghost acts = self@.project.activities;
        let ghost planning = self@.planning;
        let n: usize = self.planning.len();
        assert(acts.len() == self.project.activities@.len());
        if n != self.project.activities.len() {
            return false;
        }
        let mut i: usize = 0;
        while i < n
            invariant
                i <= n,
                n == planning.len(),
                n == acts.len(),
                acts == self@.project.activities,
                planning == self@.planning,
                ordered_upto(acts, planning, i as int),
            decreases n - i,
        {
            let id: u32 = self.planning[i];
            if self.listed_before(id, i) {
                proof {
                    let j = choose|j: int|
                        0 <= j < i && j < planning.len() && #[trigger] planning[j] == id;
                    assert(planning[j] == planning[i as int]);
                }
                return false;
            }
            let found = self.project.find(id);
            if found.is_none() {
                return false;
            }
            let at: usize = found.unwrap();
            let a = &self.project.activities[at];
            assert(a@ == acts[position(acts, planning[i as int])]);
            let mut m: usize = 0;
            while m < a.predecessors.len()
                invariant
                    m <= a.predecessors.len(),
                    i < n,
                    n == planning.len(),
                    planning == self@.planning,
                    acts == self@.project.activities,
                    0 <= position(acts, planning[i as int]) < acts.len(),
                    a@ == acts[position(acts, planning[i as int])],
                    forall|q: int|
                        0 <= q < m ==> comes_before(
                            planning,
                            #[trigger] acts[position(acts, planning[i as int])].predecessors[q],
                            i as int,
                        ),
                decreases a.predecessors.len() - m,
            {
                if !self.listed_before(a.predecessors[m], i) {
                    assert(!comes_before(
                        planning,
                        acts[position(acts, planning[i as int])].predecessors[m as int],
                        i as int,
                    ));
                    return false;
                }
                m += 1;
            }
            assert forall|x: int, y: int| 0 <= x < y < i + 1 implies planning[x] != planning[y] by {
                if y == i {
                    assert(!comes_before(planning, id, i as int));
                }
            }
            i += 1;
        }
        let mut x: usize = 0;
        while x < n
            invariant
                x <= n,
                n == planning.len(),
                n == acts.len(),
                acts == self@.project.activities,
                planning == self@.planning,
                forall|y: int| 0 <= y < x ==> planning.contains((#[trigger] acts[y]).id),
            decreases n - x,
        {
            assert(self.project.activities@[x as int]@ == acts[x as int]);
            let id: u32 = self.project.activities[x].id;
            if !self.listed_before(id, n) {
                assert(!planning.contains(acts[x as int].id)) by {
                    if planning.contains(acts[x as int].id) {
                        let j = choose|j: int| 0 <= j < planning.len() && planning[j] == id;
                        assert(comes_before(planning, id, n as int));
                    }
                }
                return false;
            }
            proof {
                let j = choose|j: int|
                    0 <= j < n && j < planning.len() && #[trigger] planning[j] == id;
                assert(planning.contains(id));
            }
            x += 1;
        }
        true
    }

    /// Whether a search can start from this state once it has been rebuilt:
    /// the project is well formed and the priority list is one of it.
    pub fn is_searchable(&self) -> (r: bool)
        ensures
            r == searchable(self@),
    {
        self.project.validate().is_ok() && self.is_priority_list()
    }
}

impl SaState {
    /// The project with the start times of this state.
    pub fn project(&self) -> (r: &Project)
        ensures
            r@ == self@.project,
    {
        &self.project
    }

    /// The priority list.
    pub fn planning(&self) -> (r: &Vec<u32>)
        ensures
            r@ == self@.planning,
    {
        &self.planning
    }

    /// The start times in the order of the priority list.
    pub fn times(&self) -> (r: &Vec<i32>)
        ensures
            r@ == self@.times,
    {
        &self.times
    }
}

impl SaState {
    /// As `get_neighbor`, but says that there is no move by an error.
    pub fn neighbor(&mut self) -> (r: Result<(u32, usize, Vec<u32>), ScheduleError>)
        requires
            searchable(old(self)@),
            settled(old(self)@),
        ensures
            final(self)@ == old(self)@,
            match r {
                Ok(found) => 2 <= found.1 <= old(self)@.planning.len() - 3 && admissible(
                    old(self)@.project.activities,
                    old(self)@.planning,
                    found.1 as int,
                ) && found.0 == neighbor_cost(old(self)@, found.1 as int) && found.2@ == triple_at(
                    old(self)@.planning,
                    found.1 as int,
                ),
                Err(e) => e == ScheduleError::NoMove,
            },
            final(self).patience() == old(self).patience(),
            old(self).patience() >= 1 && old(self)@.planning.len() >= 5 && all_admissible(
                old(self)@,
            ) ==> r.is_ok(),
    {
        let found = self.get_neighbor();
        if found.1 == 0 {
            Err(ScheduleError::NoMove)
        } else {
            Ok(found)
        }
    }
}

} // verus!
