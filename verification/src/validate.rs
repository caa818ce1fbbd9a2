//! Telling whether a project is a network that a schedule can be built for.

use vstd::prelude::*;
use crate::activity::contains_id;
use crate::error::ScheduleError;
use crate::model::{
    acyclic, all_known, arcs_known, arcs_mirrored, declared, distinct_ids, has_dummies, has_id,
    horizon, lemma_position, lemma_usage_nonneg, names_predecessor, names_successor, position,
    respects, schema, supplies_fit, usage_of, well_formed, within_horizon, ActivityView,
};
use crate::project::{usage_total, Project};
use crate::walk::lemma_count_known;

verus! {

/// Every activity that is not done has a predecessor that is not done.
pub open spec fn stuck(acts: Seq<ActivityView>, done: Seq<bool>) -> bool {
    forall|i: int|
        0 <= i < acts.len() && !done[i] ==> exists|k: int|
            0 <= k < acts[i].predecessors.len() && !done[position(
                acts,
                #[trigger] acts[i].predecessors[k],
            )]
}

/// Where the activities that are left all wait for one another, no rank
/// grows along every arc.
proof fn lemma_stuck(acts: Seq<ActivityView>, done: Seq<bool>, rank: Seq<nat>, v: int)
    requires
        arcs_known(acts),
        done.len() == acts.len(),
        rank.len() == acts.len(),
        stuck(acts, done),
        0 <= v < acts.len(),
        !done[v],
    ensures
        !respects(acts, rank),
    decreases rank[v],
{
    if respects(acts, rank) {
        let k = choose|k: int|
            0 <= k < acts[v].predecessors.len() && !done[position(
                acts,
                #[trigger] acts[v].predecessors[k],
            )];
        let pid = acts[v].predecessors[k];
        assert(all_known(acts, acts[v].predecessors));
        assert(has_id(acts, pid));
        lemma_position(acts, pid);
        lemma_stuck(acts, done, rank, position(acts, pid));
    }
}

/// The first activities can take no more instants than all of them.
proof fn lemma_horizon_grows(acts: Seq<ActivityView>, k: int)
    requires
        0 <= k <= acts.len(),
    ensures
        0 <= horizon(acts.take(k)) <= horizon(acts),
    decreases acts.len() - k,
{
    if k < acts.len() {
        lemma_horizon_grows(acts, k + 1);
        assert(acts.take(k + 1).drop_last() =~= acts.take(k));
        lemma_horizon_nonneg(acts.take(k));
    } else {
        assert(acts.take(k) =~= acts);
        lemma_horizon_nonneg(acts);
    }
}

proof fn lemma_horizon_nonneg(acts: Seq<ActivityView>)
    ensures
        horizon(acts) >= 0,
    decreases acts.len(),
{
    if acts.len() > 0 {
        lemma_horizon_nonneg(acts.drop_last());
    }
}

impl Project {
    /// Whether the dummies stand at the ends and nowhere else.
    fn check_dummies(&self) -> (r: bool)
        ensures
            r == has_dummies(self@.activities),
    {
        let ghost acts = self@.activities;
        let n: usize = self.activities.len();
        if n < 2 {
            return false;
        }
        let first = &self.activities[0];
        let last = &self.activities[n - 1];
        assert(first@ == acts[0] && last@ == acts[n as int - 1]);
        assert(first@.supplies.len() == first.supplies@.len());
        assert(last@.supplies.len() == last.supplies@.len());
        if first.duration != 0 || first.supplies.len() != 0 || last.duration != 0
            || last.supplies.len() != 0 {
            return false;
        }
        let mut i: usize = 0;
        while i < n
            invariant
                i <= n,
                n == acts.len(),
                acts == self@.activities,
                forall|j: int|
                    0 <= j < i ==> ((#[trigger] acts[j]).predecessors.len() == 0 <==> j == 0),
                forall|j: int|
                    0 <= j < i ==> ((#[trigger] acts[j]).successors.len() == 0 <==> j == n - 1),
            decreases n - i,
        {
            let a = &self.activities[i];
            assert(a@ == acts[i as int]);
            if (a.predecessors.len() == 0) != (i == 0) {
                return false;
            }
            if (a.successors.len() == 0) != (i == n - 1) {
                return false;
            }
            i += 1;
        }
        true
    }

    /// Whether no identity occurs twice.
    fn check_distinct(&self) -> (r: bool)
        ensures
            r == distinct_ids(self@.activities),
    {
        let ghost acts = self@.activities;
        let n: usize = self.activities.len();
        let mut j: usize = 0;
        while j < n
            invariant
                j <= n,
                n == acts.len(),
                acts == self@.activities,
                forall|a: int, b: int|
                    0 <= a < b < j ==> (#[trigger] acts[a]).id != (#[trigger] acts[b]).id,
            decreases n - j,
        {
            let mut i: usize = 0;
            while i < j
                invariant
                    i <= j < n,
                    n == acts.len(),
                    acts == self@.activities,
                    forall|a: int| 0 <= a < i ==> (#[trigger] acts[a]).id != acts[j as int].id,
                decreases j - i,
            {
                assert(self.activities@[i as int]@ == acts[i as int]);
                assert(self.activities@[j as int]@ == acts[j as int]);
                if self.activities[i].id == self.activities[j].id {
                    return false;
                }
                i += 1;
            }
            j += 1;
        }
        true
    }

    /// Whether every identity in `ids` is carried by an activity.
    fn knows_all(&self, ids: &Vec<u32>) -> (r: bool)
        ensures
            r == all_known(self@.activities, ids@),
    {
        let mut k: usize = 0;
        while k < ids.len()
            invariant
                k <= ids.len(),
                forall|j: int| 0 <= j < k ==> has_id(self@.activities, #[trigger] ids@[j]),
            decreases ids.len() - k,
        {
            if self.find(ids[k]).is_none() {
                return false;
            }
            k += 1;
        }
        true
    }

    /// Whether every arc leads to an activity of the project.
    fn check_known(&self) -> (r: bool)
        ensures
            r == arcs_known(self@.activities),
    {
        let ghost acts = self@.activities;
        let n: usize = self.activities.len();
        let mut i: usize = 0;
        while i < n
            invariant
                i <= n,
                n == acts.len(),
                acts == self@.activities,
                forall|j: int|
                    0 <= j < i ==> all_known(acts, (#[trigger] acts[j]).predecessors) && all_known(
                        acts,
                        acts[j].successors,
                    ),
            decreases n - i,
        {
            let a = &self.activities[i];
            assert(a@ == acts[i as int]);
            if !self.knows_all(&a.predecessors) || !self.knows_all(&a.successors) {
                return false;
            }
            i += 1;
        }
        true
    }

    /// Whether every arc is recorded at both of its ends.
    fn check_mirrored(&self) -> (r: bool)
        requires
            arcs_known(self@.activities),
        ensures
            r == arcs_mirrored(self@.activities),
    {
        let ghost acts = self@.activities;
        let n: usize = self.activities.len();
        let mut i: usize = 0;
        while i < n
            invariant
                i <= n,
                n == acts.len(),
                acts == self@.activities,
                arcs_known(acts),
                forall|j: int, k: int|
                    0 <= j < i && 0 <= k < acts[j].predecessors.len() ==> names_successor(
                        acts,
                        #[trigger] acts[j].predecessors[k],
                        acts[j].id,
                    ),
                forall|j: int, k: int|
                    0 <= j < i && 0 <= k < acts[j].successors.len() ==> names_predecessor(
                        acts,
                        #[trigger] acts[j].successors[k],
                        acts[j].id,
                    ),
            decreases n - i,
        {
            let a = &self.activities[i];
            assert(a@ == acts[i as int]);
            assert(all_known(acts, acts[i as int].predecessors));
            assert(all_known(acts, acts[i as int].successors));
            let mut k: usize = 0;
            while k < a.predecessors.len()
                invariant
                    k <= a.predecessors.len(),
                    i < n,
                    n == acts.len(),
                    acts == self@.activities,
                    a@ == acts[i as int],
                    all_known(acts, acts[i as int].predecessors),
                    forall|m: int|
                        0 <= m < k ==> names_successor(
                            acts,
                            #[trigger] acts[i as int].predecessors[m],
                            acts[i as int].id,
                        ),
                decreases a.predecessors.len() - k,
            {
                assert(has_id(acts, acts[i as int].predecessors[k as int]));
                let u: usize = self.find(a.predecessors[k]).unwrap();
                assert(self.activities@[u as int]@ == acts[u as int]);
                if !contains_id(&self.activities[u].successors, a.id) {
                    return false;
                }
                k += 1;
            }
            let mut k: usize = 0;
            while k < a.successors.len()
                invariant
                    k <= a.successors.len(),
                    i < n,
                    n == acts.len(),
                    acts == self@.activities,
                    a@ == acts[i as int],
                    all_known(acts, acts[i as int].successors),
                    forall|m: int|
                        0 <= m < k ==> names_predecessor(
                            acts,
                            #[trigger] acts[i as int].successors[m],
                            acts[i as int].id,
                        ),
                decreases a.successors.len() - k,
            {
                assert(has_id(acts, acts[i as int].successors[k as int]));
                let v: usize = self.find(a.successors[k]).unwrap();
                assert(self.activities@[v as int]@ == acts[v as int]);
                if !contains_id(&self.activities[v].predecessors, a.id) {
                    return false;
                }
                k += 1;
            }
            i += 1;
        }
        true
    }
}

impl Project {
    /// Whether the resources are distinct and meet every usage.
    fn check_supplies(&self) -> (r: bool)
        ensures
            r == supplies_fit(self@),
    {
        let ghost p = self@;
        let m: usize = self.resources.len();
        let mut j: usize = 0;
        while j < m
            invariant
                j <= m,
                m == p.resources.len(),
                p == self@,
                forall|a: int, b: int|
                    0 <= a < b < j ==> (#[trigger] p.resources[a]).id != (
                    #[trigger] p.resources[b]).id,
            decreases m - j,
        {
            let mut i: usize = 0;
            while i < j
                invariant
                    i <= j < m,
                    m == p.resources.len(),
                    p == self@,
                    forall|a: int|
                        0 <= a < i ==> (#[trigger] p.resources[a]).id != p.resources[j as int].id,
                decreases j - i,
            {
                assert(self.resources@[i as int]@ == p.resources[i as int]);
                assert(self.resources@[j as int]@ == p.resources[j as int]);
                if self.resources[i].id == self.resources[j].id {
                    return false;
                }
                i += 1;
            }
            j += 1;
        }
        let n: usize = self.activities.len();
        let mut i: usize = 0;
        while i < n
            invariant
                i <= n,
                n == p.activities.len(),
                m == p.resources.len(),
                p == self@,
                forall|a: int, k: int|
                    0 <= a < i && 0 <= k < p.activities[a].supplies.len() ==> {
                        let s = #[trigger] p.activities[a].supplies[k];
                        declared(p.resources, s.resource) && usage_of(
                            p.activities[a].supplies,
                            s.resource.id,
                        ) <= s.resource.capacity
                    },
            decreases n - i,
        {
            let a = &self.activities[i];
            assert(a@ == p.activities[i as int]);
            assert(a@.supplies.len() == a.supplies@.len());
            let mut k: usize = 0;
            while k < a.supplies.len()
                invariant
                    k <= a.supplies.len(),
                    i < n,
                    n == p.activities.len(),
                    m == p.resources.len(),
                    p == self@,
                    a@ == p.activities[i as int],
                    a@.supplies.len() == a.supplies@.len(),
                    forall|q: int|
                        0 <= q < k ==> {
                            let s = #[trigger] p.activities[i as int].supplies[q];
                            declared(p.resources, s.resource) && usage_of(
                                p.activities[i as int].supplies,
                                s.resource.id,
                            ) <= s.resource.capacity
                        },
                decreases a.supplies.len() - k,
            {
                let s = &a.supplies[k];
                assert(s@ == p.activities[i as int].supplies[k as int]);
                let mut found: bool = false;
                let mut j: usize = 0;
                while j < m
                    invariant
                        j <= m,
                        m == p.resources.len(),
                        p == self@,
                        found ==> declared(p.resources, s@.resource),
                        !found ==> forall|b: int|
                            0 <= b < j ==> !((#[trigger] p.resources[b]).id == s@.resource.id
                                && p.resources[b].capacity == s@.resource.capacity),
                    decreases m - j,
                {
                    assert(self.resources@[j as int]@ == p.resources[j as int]);
                    if self.resources[j].id == s.resource.id && self.resources[j].capacity
                        == s.resource.capacity {
                        found = true;
                    }
                    j += 1;
                }
                if !found {
                    return false;
                }
                let used: u64 = usage_total(&a.supplies, s.resource.id);
                proof {
                    lemma_usage_nonneg(a@.supplies, s@.resource.id);
                }
                if used > s.resource.capacity as u64 {
                    return false;
                }
                k += 1;
            }
            i += 1;
        }
        true
    }

    /// Whether the time axis has room for all activities.
    fn check_horizon(&self) -> (r: bool)
        ensures
            r == within_horizon(self@.activities),
    {
        let ghost acts = self@.activities;
        let n: usize = self.activities.len();
        let mut total: u64 = 0;
        let mut i: usize = 0;
        assert(acts.take(0) =~= Seq::empty());
        while i < n
            invariant
                i <= n,
                n == acts.len(),
                acts == self@.activities,
                total == horizon(acts.take(i as int)),
                total <= i32::MAX,
            decreases n - i,
        {
            assert(self.activities@[i as int]@ == acts[i as int]);
            assert(acts.take(i + 1).drop_last() =~= acts.take(i as int));
            assert(acts.take(i + 1).last() == acts[i as int]);
            total = total + self.activities[i].duration as u64 + 1;
            if total > 0x7fff_ffff {
                proof {
                    lemma_horizon_grows(acts, i + 1);
                }
                return false;
            }
            i += 1;
        }
        assert(acts.take(n as int) =~= acts);
        true
    }

    /// Whether every predecessor of the activity at `i` is done.
    fn waits_for_none(&self, i: usize, done: &Vec<bool>) -> (r: bool)
        requires
            i < self@.activities.len(),
            done@.len() == self@.activities.len(),
            arcs_known(self@.activities),
        ensures
            r == forall|k: int|
                0 <= k < self@.activities[i as int].predecessors.len() ==> done@[position(
                    self@.activities,
                    #[trigger] self@.activities[i as int].predecessors[k],
                )],
    {
        let ghost acts = self@.activities;
        let a = &self.activities[i];
        assert(a@ == acts[i as int]);
        assert(all_known(acts, acts[i as int].predecessors));
        let mut k: usize = 0;
        while k < a.predecessors.len()
            invariant
                k <= a.predecessors.len(),
                acts == self@.activities,
                a@ == acts[i as int],
                done@.len() == acts.len(),
                all_known(acts, acts[i as int].predecessors),
                forall|m: int|
                    0 <= m < k ==> done@[position(
                        acts,
                        #[trigger] acts[i as int].predecessors[m],
                    )],
            decreases a.predecessors.len() - k,
        {
            assert(has_id(acts, acts[i as int].predecessors[k as int]));
            let u: usize = self.find(a.predecessors[k]).unwrap();
            if !done[u] {
                return false;
            }
            k += 1;
        }
        true
    }

    /// Whether the precedence relation has no cycle: activities are taken
    /// off one by one, each once all its predecessors are off; there is no
    /// cycle when none is left.
    fn check_acyclic(&self) -> (r: bool)
        requires
            arcs_known(self@.activities),
            distinct_ids(self@.activities),
        ensures
            r == acyclic(self@.activities),
    {
        let ghost acts = self@.activities;
        let n: usize = self.activities.len();
        let mut done: Vec<bool> = Vec::new();
        let mut i: usize = 0;
        while i < n
            invariant
                i <= n,
                done@.len() == i,
                forall|j: int| 0 <= j < i ==> !(#[trigger] done@[j]),
            decreases n - i,
        {
            done.push(false);
            i += 1;
        }
        let ghost mut rank: Seq<nat> = Seq::new(n as nat, |j: int| 0nat);
        let ghost mut order: Seq<u32> = Seq::empty();
        let mut taken: usize = 0;
        let mut moving: u8 = 1;
        while moving == 1
            invariant
                moving <= 1,
                n == acts.len(),
                acts == self@.activities,
                arcs_known(acts),
                distinct_ids(acts),
                done@.len() == n,
                rank.len() == n,
                taken == order.len(),
                taken <= n,
                forall|a: int| 0 <= a < order.len() ==> has_id(acts, #[trigger] order[a]),
                forall|a: int, b: int| 0 <= a < b < order.len() ==> order[a] != order[b],
                forall|j: int| 0 <= j < n ==> (#[trigger] done@[j] <==> order.contains(acts[j].id)),
                forall|j: int| 0 <= j < n && #[trigger] done@[j] ==> rank[j] < taken,
                forall|j: int, k: int|
                    0 <= j < n && done@[j] && 0 <= k < acts[j].predecessors.len() ==> done@[position(
                        acts,
                        #[trigger] acts[j].predecessors[k],
                    )] && rank[position(acts, acts[j].predecessors[k])] < rank[j],
                moving == 0 ==> stuck(acts, done@),
            decreases n - taken, moving,
        {
            let mut j: usize = n;
            let mut x: usize = 0;
            while x < n
                invariant
                    x <= n,
                    j <= n,
                    n == acts.len(),
                    acts == self@.activities,
                    arcs_known(acts),
                    done@.len() == n,
                    j < n ==> !done@[j as int] && forall|k: int|
                        0 <= k < acts[j as int].predecessors.len() ==> done@[position(
                            acts,
                            #[trigger] acts[j as int].predecessors[k],
                        )],
                    j == n ==> forall|y: int|
                        0 <= y < x && !done@[y] ==> exists|k: int|
                            0 <= k < acts[y].predecessors.len() && !done@[position(
                                acts,
                                #[trigger] acts[y].predecessors[k],
                            )],
                decreases n - x,
            {
                if j == n && !done[x] && self.waits_for_none(x, &done) {
                    j = x;
                }
                x += 1;
            }
            if j < n {
                proof {
                    let id = acts[j as int].id;
                    let next = order.push(id);
                    assert(has_id(acts, acts[j as int].id));
                    assert forall|a: int, b: int| 0 <= a < b < next.len() implies next[a]
                        != next[b] by {
                        if b == order.len() {
                            assert(!order.contains(id));
                        } else {
                            assert(order[a] != order[b]);
                        }
                    }
                    assert forall|a: int| 0 <= a < next.len() implies has_id(
                        acts,
                        #[trigger] next[a],
                    ) by {
                        if a < order.len() {
                            assert(has_id(acts, order[a]));
                        }
                    }
                    lemma_count_known(acts, next);
                    assert forall|x: int| 0 <= x < n implies ((x == j || done@[x])
                        <==> next.contains(acts[x].id)) by {
                        if x == j {
                            assert(next[order.len() as int] == id);
                        } else {
                            assert(acts[x].id != id) by {
                                if x < (j as int) {
                                    assert(acts[x].id != acts[j as int].id);
                                } else {
                                    assert(acts[j as int].id != acts[x].id);
                                }
                            }
                            if done@[x] {
                                let a = choose|a: int| 0 <= a < order.len() && order[a] == acts[x].id;
                                assert(next[a] == acts[x].id);
                            }
                            if next.contains(acts[x].id) {
                                let a = choose|a: int| 0 <= a < next.len() && next[a] == acts[x].id;
                                assert(order[a] == acts[x].id);
                            }
                        }
                    }
                    rank = rank.update(j as int, taken as nat);
                    order = next;
                }
                done[j] = true;
                taken += 1;
                proof {
                    assert forall|x: int, k: int|
                        0 <= x < n && done@[x] && 0 <= k < acts[x].predecessors.len() implies done@[position(
                        acts,
                        #[trigger] acts[x].predecessors[k],
                    )] && rank[position(acts, acts[x].predecessors[k])] < rank[x] by {
                        let pid = acts[x].predecessors[k];
                        assert(all_known(acts, acts[x].predecessors));
                        assert(has_id(acts, pid));
                        lemma_position(acts, pid);
                    }
                }
            } else {
                moving = 0;
            }
        }
        let mut all: bool = true;
        let mut j: usize = 0;
        while j < n
            invariant
                j <= n,
                done@.len() == n,
                all ==> forall|x: int| 0 <= x < j ==> #[trigger] done@[x],
                !all ==> exists|x: int| 0 <= x < n && !(#[trigger] done@[x]),
            decreases n - j,
        {
            if !done[j] {
                all = false;
            }
            j += 1;
        }
        proof {
            if all {
                assert(respects(acts, rank));
            } else {
                let x = choose|x: int| 0 <= x < n && !(#[trigger] done@[x]);
                if acyclic(acts) {
                    let other = choose|other: Seq<nat>| respects(acts, other);
                    lemma_stuck(acts, done@, other, x);
                }
            }
        }
        all
    }

    /// Tells whether a schedule can be built for this project. A project
    /// without activities is refused as out of range; one that is not a
    /// network (no dummies at the ends, an identity twice, an arc to
    /// nowhere or recorded at one end only, a cycle, a usage that no
    /// resource of the project meets) as a schema violation; one whose
    /// durations leave no room on the time axis as out of range.
    pub fn validate(&self) -> (r: Result<(), ScheduleError>)
        ensures
            r == (if self@.activities.len() == 0 {
                Err::<(), ScheduleError>(ScheduleError::ParameterOutOfRange)
            } else if !schema(self@) {
                Err(ScheduleError::SchemaViolation)
            } else if !within_horizon(self@.activities) {
                Err(ScheduleError::ParameterOutOfRange)
            } else {
                Ok(())
            }),
            r.is_ok() <==> well_formed(self@),
    {
        assert(self@.activities.len() == self.activities@.len());
        if self.activities.len() == 0 {
            return Err(ScheduleError::ParameterOutOfRange);
        }
        if !self.check_dummies() || !self.check_distinct() || !self.check_known() {
            return Err(ScheduleError::SchemaViolation);
        }
        if !self.check_mirrored() || !self.check_acyclic() || !self.check_supplies() {
            return Err(ScheduleError::SchemaViolation);
        }
        if !self.check_horizon() {
            return Err(ScheduleError::ParameterOutOfRange);
        }
        Ok(())
    }
}

} // verus!
