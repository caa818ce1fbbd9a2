//! The breadth-first walk of the network that gives the first priority list.

use vstd::prelude::*;
use vstd::set_lib::lemma_len_subset;
use crate::model::{
    all_known, distinct_ids, has_id, lemma_position, lemma_position_distinct, names_predecessor,
    names_successor, position, respects, well_formed, ActivityView, ProjectView,
};
use crate::schedule::{comes_before, lemma_same_network, ordered_upto, same_network};

verus! {

/// The walk at one moment: the activities that wait, and those placed so far.
pub struct Walk {
    pub queue: Seq<u32>,
    pub planned: Seq<u32>,
}

/// Every predecessor of the activity `v` has been placed.
pub open spec fn ready(acts: Seq<ActivityView>, planned: Seq<u32>, v: u32) -> bool {
    forall|m: int|
        0 <= m < acts[position(acts, v)].predecessors.len() ==> planned.contains(
            #[trigger] acts[position(acts, v)].predecessors[m],
        )
}

/// `queue` after those of the first `m` activities of `acts` that `succs`
/// names, and that do not wait already, have joined it in their order.
pub open spec fn enqueued(acts: Seq<ActivityView>, queue: Seq<u32>, succs: Seq<u32>, m: int) -> Seq<
    u32,
>
    decreases m,
{
    if m <= 0 {
        queue
    } else {
        let q = enqueued(acts, queue, succs, m - 1);
        let x = acts[m - 1].id;
        if succs.contains(x) && !q.contains(x) {
            q.push(x)
        } else {
            q
        }
    }
}

/// One step of the walk: the activity at the head of the queue goes to the
/// back where a predecessor of it is still to be placed; else it is placed
/// and its successors join the queue.
pub open spec fn walk_step(acts: Seq<ActivityView>, w: Walk) -> Walk {
    if w.queue.len() == 0 {
        w
    } else {
        let v = w.queue[0];
        let rest = w.queue.drop_first();
        if !ready(acts, w.planned, v) {
            Walk { queue: rest.push(v), planned: w.planned }
        } else {
            Walk {
                queue: enqueued(
                    acts,
                    rest,
                    acts[position(acts, v)].successors,
                    acts.len() as int,
                ),
                planned: w.planned.push(v),
            }
        }
    }
}

/// The walk after `steps` steps, from the source alone in the queue.
pub open spec fn walk(acts: Seq<ActivityView>, steps: nat) -> Walk
    decreases steps,
{
    if steps == 0 {
        Walk { queue: seq![acts[0].id], planned: Seq::empty() }
    } else {
        walk_step(acts, walk(acts, (steps - 1) as nat))
    }
}

/// `planning` is the order in which the breadth-first walk places the
/// activities: the walk comes to an empty queue with `planning` placed.
pub open spec fn breadth_first(acts: Seq<ActivityView>, planning: Seq<u32>) -> bool {
    exists|steps: nat|
        (#[trigger] walk(acts, steps)).queue.len() == 0 && walk(acts, steps).planned == planning
}

/// Once the queue is empty the walk stays as it is.
pub proof fn lemma_walk_rests(acts: Seq<ActivityView>, early: nat, late: nat)
    requires
        walk(acts, early).queue.len() == 0,
        early <= late,
    ensures
        walk(acts, late) == walk(acts, early),
    decreases late,
{
    if early < late {
        lemma_walk_rests(acts, early, (late - 1) as nat);
    }
}

/// The breadth-first order of a network is unique.
pub proof fn lemma_breadth_first_unique(acts: Seq<ActivityView>, pa: Seq<u32>, pb: Seq<u32>)
    requires
        breadth_first(acts, pa),
        breadth_first(acts, pb),
    ensures
        pa == pb,
{
    let early = choose|steps: nat|
        (#[trigger] walk(acts, steps)).queue.len() == 0 && walk(acts, steps).planned == pa;
    let late = choose|steps: nat|
        (#[trigger] walk(acts, steps)).queue.len() == 0 && walk(acts, steps).planned == pb;
    if early <= late {
        lemma_walk_rests(acts, early, late);
    } else {
        lemma_walk_rests(acts, late, early);
    }
}

/// What holds of the walk at every moment.
pub open spec fn walk_inv(acts: Seq<ActivityView>, w: Walk) -> bool {
    &&& ordered_upto(acts, w.planned, w.planned.len() as int)
    &&& forall|a: int| 0 <= a < w.queue.len() ==> has_id(acts, #[trigger] w.queue[a])
    &&& forall|a: int, b: int| 0 <= a < b < w.queue.len() ==> w.queue[a] != w.queue[b]
    &&& forall|a: int| 0 <= a < w.queue.len() ==> !w.planned.contains(#[trigger] w.queue[a])
    &&& forall|j: int, m: int|
        0 <= j < w.planned.len() && 0 <= m < acts[position(acts, w.planned[j])].successors.len()
            ==> {
            let s = #[trigger] acts[position(acts, w.planned[j])].successors[m];
            w.planned.contains(s) || w.queue.contains(s)
        }
    &&& w.planned.len() == 0 ==> w.queue == seq![acts[0].id]
    &&& w.planned.len() > 0 ==> w.planned[0] == acts[0].id
}

/// What joining the queue keeps and brings.
pub proof fn lemma_enqueued(acts: Seq<ActivityView>, queue: Seq<u32>, succs: Seq<u32>, m: int)
    requires
        0 <= m <= acts.len(),
    ensures
        enqueued(acts, queue, succs, m).len() >= queue.len(),
        forall|a: int| 0 <= a < queue.len() ==> enqueued(acts, queue, succs, m)[a] == queue[a],
        forall|a: int|
            queue.len() <= a < enqueued(acts, queue, succs, m).len() ==> {
                let x = #[trigger] enqueued(acts, queue, succs, m)[a];
                succs.contains(x) && has_id(acts, x) && !queue.contains(x)
            },
        forall|a: int, b: int|
            0 <= a < b < enqueued(acts, queue, succs, m).len() && queue.len() <= b ==> enqueued(
                acts,
                queue,
                succs,
                m,
            )[a] != enqueued(acts, queue, succs, m)[b],
        forall|x: int|
            0 <= x < m && succs.contains(acts[x].id) ==> enqueued(acts, queue, succs, m).contains(
                (#[trigger] acts[x]).id,
            ),
    decreases m,
{
    if m > 0 {
        lemma_enqueued(acts, queue, succs, m - 1);
        let q = enqueued(acts, queue, succs, m - 1);
        let now = enqueued(acts, queue, succs, m);
        let x = acts[m - 1].id;
        assert(has_id(acts, x));
        if succs.contains(x) && !q.contains(x) {
            assert(now == q.push(x));
            assert(!queue.contains(x)) by {
                if queue.contains(x) {
                    let a = choose|a: int| 0 <= a < queue.len() && queue[a] == x;
                    assert(q[a] == x);
                }
            }
            assert(now[q.len() as int] == x);
        }
        assert forall|y: int| 0 <= y < m && succs.contains(acts[y].id) implies now.contains(
            (#[trigger] acts[y]).id,
        ) by {
            if y < m - 1 {
                assert(q.contains(acts[y].id));
                let a = choose|a: int| 0 <= a < q.len() && q[a] == acts[y].id;
                assert(now[a] == acts[y].id);
            } else {
                if q.contains(x) {
                    let a = choose|a: int| 0 <= a < q.len() && q[a] == x;
                    assert(now[a] == x);
                } else {
                    assert(now[q.len() as int] == x);
                }
            }
        }
    }
}

/// Distinct identities of a network are no more than its activities.
pub proof fn lemma_count_known(acts: Seq<ActivityView>, ids: Seq<u32>)
    requires
        forall|a: int, b: int| 0 <= a < b < ids.len() ==> ids[a] != ids[b],
        forall|a: int| 0 <= a < ids.len() ==> has_id(acts, #[trigger] ids[a]),
    ensures
        ids.len() <= acts.len(),
{
    broadcast use vstd::seq_lib::seq_to_set_is_finite;

    let all = acts.map_values(|a: ActivityView| a.id);
    assert(ids.no_duplicates()) by {
        assert forall|i: int, j: int|
            0 <= i < ids.len() && 0 <= j < ids.len() && i != j implies ids[i] != ids[j] by {
            if i < j {
                assert(ids[i] != ids[j]);
            } else {
                assert(ids[j] != ids[i]);
            }
        }
    }
    ids.unique_seq_to_set();
    all.lemma_cardinality_of_set();
    assert(ids.to_set().subset_of(all.to_set())) by {
        assert forall|id: u32| ids.to_set().contains(id) implies all.to_set().contains(id) by {
            let a = choose|a: int| 0 <= a < ids.len() && ids[a] == id;
            assert(has_id(acts, ids[a]));
            let i = choose|i: int| 0 <= i < acts.len() && (#[trigger] acts[i]).id == id;
            assert(all[i] == id);
        }
    }
    lemma_len_subset(ids.to_set(), all.to_set());
}

/// Distinct identities that cover a network are as many as its activities.
pub proof fn lemma_count_cover(acts: Seq<ActivityView>, ids: Seq<u32>)
    requires
        distinct_ids(acts),
        forall|x: int| 0 <= x < acts.len() ==> ids.contains((#[trigger] acts[x]).id),
    ensures
        acts.len() <= ids.len(),
{
    broadcast use vstd::seq_lib::seq_to_set_is_finite;

    let all = acts.map_values(|a: ActivityView| a.id);
    assert(all.no_duplicates()) by {
        assert forall|i: int, j: int|
            0 <= i < all.len() && 0 <= j < all.len() && i != j implies all[i] != all[j] by {
            if i < j {
                assert(acts[i].id != acts[j].id);
            } else {
                assert(acts[j].id != acts[i].id);
            }
        }
    }
    all.unique_seq_to_set();
    ids.lemma_cardinality_of_set();
    assert(all.to_set().subset_of(ids.to_set())) by {
        assert forall|id: u32| all.to_set().contains(id) implies ids.to_set().contains(id) by {
            let i = choose|i: int| 0 <= i < all.len() && all[i] == id;
            assert(ids.contains(acts[i].id));
        }
    }
    lemma_len_subset(all.to_set(), ids.to_set());
}

/// The walk starts as it should.
pub proof fn lemma_walk_start(acts: Seq<ActivityView>)
    requires
        acts.len() > 0,
    ensures
        walk_inv(acts, walk(acts, 0)),
{
    let w = walk(acts, 0);
    assert(w.queue[0] == acts[0].id);
    assert(has_id(acts, acts[0].id));
}

/// While an activity is still to be placed, one that is ready waits in the queue.
pub proof fn lemma_some_ready(p: ProjectView, w: Walk, x: int, rank: Seq<nat>)
    requires
        well_formed(p),
        walk_inv(p.activities, w),
        respects(p.activities, rank),
        0 <= x < p.activities.len(),
        !w.planned.contains(p.activities[x].id),
    ensures
        exists|a: int| 0 <= a < w.queue.len() && ready(p.activities, w.planned, #[trigger] w.queue[a]),
    decreases rank[x],
{
    let acts = p.activities;
    let v = acts[x].id;
    lemma_position_distinct(acts, x);
    if ready(acts, w.planned, v) {
        if x == 0 {
            if w.planned.len() > 0 {
                assert(w.planned[0] == v);
                assert(false);
            }
            assert(w.queue[0] == v);
        } else {
            assert(acts[x].predecessors.len() > 0);
            let u = acts[x].predecessors[0];
            assert(w.planned.contains(u));
            let j = choose|j: int| 0 <= j < w.planned.len() && w.planned[j] == u;
            assert(names_successor(acts, u, v));
            let succs = acts[position(acts, u)].successors;
            let m = choose|m: int| 0 <= m < succs.len() && succs[m] == v;
            assert(acts[position(acts, w.planned[j])].successors[m] == v);
            assert(w.planned.contains(v) || w.queue.contains(v));
            let a = choose|a: int| 0 <= a < w.queue.len() && w.queue[a] == v;
            assert(ready(acts, w.planned, w.queue[a]));
        }
    } else {
        let m = choose|m: int|
            0 <= m < acts[position(acts, v)].predecessors.len() && !w.planned.contains(
                #[trigger] acts[position(acts, v)].predecessors[m],
            );
        let u = acts[x].predecessors[m];
        assert(all_known(acts, acts[x].predecessors));
        assert(has_id(acts, u));
        lemma_position(acts, u);
        let y = position(acts, u);
        assert(rank[y] < rank[x]);
        lemma_some_ready(p, w, y, rank);
    }
}

/// A step of the walk keeps what holds of it.
pub proof fn lemma_walk_step(p: ProjectView, w: Walk)
    requires
        well_formed(p),
        walk_inv(p.activities, w),
    ensures
        walk_inv(p.activities, walk_step(p.activities, w)),
{
    let acts = p.activities;
    let next = walk_step(acts, w);
    if w.queue.len() > 0 {
        let v = w.queue[0];
        let rest = w.queue.drop_first();
        assert(has_id(acts, w.queue[0]));
        lemma_position(acts, v);
        let at = position(acts, v);
        assert forall|a: int| 0 <= a < rest.len() implies rest[a] == w.queue[a + 1] by {}
        if !ready(acts, w.planned, v) {
            assert(w.planned.len() > 0) by {
                if w.planned.len() == 0 {
                    assert(v == acts[0].id);
                    lemma_position_distinct(acts, 0);
                    assert(acts[0].predecessors.len() == 0);
                    assert(ready(acts, w.planned, v));
                }
            }
            assert forall|a: int| 0 <= a < next.queue.len() implies has_id(
                acts,
                #[trigger] next.queue[a],
            ) && !next.planned.contains(next.queue[a]) by {
                if a < rest.len() {
                    assert(next.queue[a] == w.queue[a + 1]);
                } else {
                    assert(next.queue[a] == w.queue[0]);
                }
            }
            assert forall|a: int, b: int| 0 <= a < b < next.queue.len() implies next.queue[a]
                != next.queue[b] by {
                if b < rest.len() {
                    assert(w.queue[a + 1] != w.queue[b + 1]);
                } else {
                    assert(w.queue[0] != w.queue[a + 1]);
                }
            }
            assert forall|j: int, m: int|
                0 <= j < next.planned.len() && 0 <= m < acts[position(
                    acts,
                    next.planned[j],
                )].successors.len() implies {
                let s = #[trigger] acts[position(acts, next.planned[j])].successors[m];
                next.planned.contains(s) || next.queue.contains(s)
            } by {
                let s = acts[position(acts, w.planned[j])].successors[m];
                if w.queue.contains(s) {
                    let a = choose|a: int| 0 <= a < w.queue.len() && w.queue[a] == s;
                    if a == 0 {
                        assert(next.queue[rest.len() as int] == s);
                    } else {
                        assert(next.queue[a - 1] == s);
                    }
                }
            }
        } else {
            let succs = acts[at].successors;
            let k = w.planned.len() as int;
            lemma_enqueued(acts, rest, succs, acts.len() as int);
            assert(next.planned == w.planned.push(v));
            assert(next.queue == enqueued(acts, rest, succs, acts.len() as int));
            // the placed activities stay a priority list
            assert(ordered_upto(acts, next.planned, k + 1)) by {
                assert forall|i: int| 0 <= i < k + 1 implies has_id(
                    acts,
                    #[trigger] next.planned[i],
                ) by {
                    if i < k {
                        assert(has_id(acts, w.planned[i]));
                    }
                }
                assert forall|i: int, j: int| 0 <= i < j < k + 1 implies next.planned[i]
                    != next.planned[j] by {
                    if j < k {
                        assert(w.planned[i] != w.planned[j]);
                    } else {
                        assert(!w.planned.contains(w.queue[0]));
                    }
                }
                assert forall|i: int, m: int|
                    0 <= i < k + 1 && 0 <= m < acts[position(
                        acts,
                        next.planned[i],
                    )].predecessors.len() implies comes_before(
                    next.planned,
                    #[trigger] acts[position(acts, next.planned[i])].predecessors[m],
                    i,
                ) by {
                    let pid = acts[position(acts, next.planned[i])].predecessors[m];
                    if i < k {
                        assert(next.planned[i] == w.planned[i]);
                        assert(comes_before(w.planned, pid, i));
                        let j = choose|j: int|
                            0 <= j < i && j < w.planned.len() && #[trigger] w.planned[j] == pid;
                        assert(next.planned[j] == pid);
                    } else {
                        assert(w.planned.contains(pid));
                        let j = choose|j: int| 0 <= j < w.planned.len() && w.planned[j] == pid;
                        assert(next.planned[j] == pid);
                    }
                }
            }
            // what waits is known, waits once, and is not placed
            assert forall|a: int| 0 <= a < next.queue.len() implies has_id(
                acts,
                #[trigger] next.queue[a],
            ) && !next.planned.contains(next.queue[a]) by {
                let s = next.queue[a];
                let grown = enqueued(acts, rest, succs, acts.len() as int);
                assert(s == grown[a]);
                if a < rest.len() {
                    assert(grown[a] == rest[a]);
                    assert(s == w.queue[a + 1]);
                    assert(w.queue[0] != w.queue[a + 1]);
                    assert(!w.planned.contains(s));
                } else {
                    assert(succs.contains(s) && has_id(acts, s));
                    lemma_placed_successor(p, w.planned, v, s);
                }
                if next.planned.contains(s) {
                    let j = choose|j: int| 0 <= j < next.planned.len() && next.planned[j] == s;
                    if j < k {
                        assert(w.planned[j] == s);
                        assert(w.planned.contains(s));
                    }
                    assert(false);
                }
            }
            assert forall|a: int, b: int| 0 <= a < b < next.queue.len() implies next.queue[a]
                != next.queue[b] by {
                let grown = enqueued(acts, rest, succs, acts.len() as int);
                assert(next.queue[a] == grown[a] && next.queue[b] == grown[b]);
                if b < rest.len() {
                    assert(grown[a] == rest[a] && grown[b] == rest[b]);
                    assert(w.queue[a + 1] != w.queue[b + 1]);
                } else {
                    assert(grown[a] != grown[b]);
                }
            }
            // the successors of what is placed are placed or wait
            assert forall|j: int, m: int|
                0 <= j < next.planned.len() && 0 <= m < acts[position(
                    acts,
                    next.planned[j],
                )].successors.len() implies {
                let s = #[trigger] acts[position(acts, next.planned[j])].successors[m];
                next.planned.contains(s) || next.queue.contains(s)
            } by {
                let s = acts[position(acts, next.planned[j])].successors[m];
                if j < k {
                    assert(next.planned[j] == w.planned[j]);
                    if w.planned.contains(s) {
                        let i = choose|i: int| 0 <= i < w.planned.len() && w.planned[i] == s;
                        assert(next.planned[i] == s);
                    } else {
                        assert(w.queue.contains(s));
                        let a = choose|a: int| 0 <= a < w.queue.len() && w.queue[a] == s;
                        if a == 0 {
                            assert(next.planned[k] == s);
                        } else {
                            assert(rest[a - 1] == s);
                            assert(next.queue[a - 1] == s);
                        }
                    }
                } else {
                    assert(succs[m] == s);
                    assert(all_known(acts, acts[at].successors));
                    assert(has_id(acts, s));
                    let x = choose|x: int| 0 <= x < acts.len() && (#[trigger] acts[x]).id == s;
                    assert(succs.contains(acts[x].id));
                    assert(next.queue.contains(acts[x].id));
                }
            }
            assert(next.planned[0] == acts[0].id) by {
                if k == 0 {
                    assert(w.queue[0] == acts[0].id);
                } else {
                    assert(next.planned[0] == w.planned[0]);
                }
            }
        }
    }
}

/// A successor of an activity that is still to be placed is itself still to
/// be placed.
proof fn lemma_placed_successor(p: ProjectView, planned: Seq<u32>, v: u32, s: u32)
    requires
        well_formed(p),
        ordered_upto(p.activities, planned, planned.len() as int),
        has_id(p.activities, v),
        has_id(p.activities, s),
        p.activities[position(p.activities, v)].successors.contains(s),
        !planned.contains(v),
    ensures
        !planned.contains(s),
{
    let acts = p.activities;
    lemma_position(acts, v);
    lemma_position(acts, s);
    if planned.contains(s) {
        let j = choose|j: int| 0 <= j < planned.len() && planned[j] == s;
        let at = position(acts, v);
        let succs = acts[at].successors;
        let m = choose|m: int| 0 <= m < succs.len() && succs[m] == s;
        assert(names_predecessor(acts, acts[at].successors[m], acts[at].id));
        let preds = acts[position(acts, s)].predecessors;
        let q = choose|q: int| 0 <= q < preds.len() && preds[q] == v;
        assert(comes_before(planned, acts[position(acts, planned[j])].predecessors[q], j));
        let i = choose|i: int| 0 <= i < j && i < planned.len() && #[trigger] planned[i] == v;
        assert(planned.contains(v));
    }
}

/// Only activities of the network wait in the queue.
pub proof fn lemma_walk_known(acts: Seq<ActivityView>, steps: nat)
    requires
        acts.len() > 0,
    ensures
        forall|a: int|
            0 <= a < walk(acts, steps).queue.len() ==> has_id(
                acts,
                #[trigger] walk(acts, steps).queue[a],
            ),
    decreases steps,
{
    if steps > 0 {
        lemma_walk_known(acts, (steps - 1) as nat);
        let w = walk(acts, (steps - 1) as nat);
        let next = walk(acts, steps);
        if w.queue.len() > 0 {
            let v = w.queue[0];
            let rest = w.queue.drop_first();
            assert forall|a: int| 0 <= a < rest.len() implies has_id(acts, #[trigger] rest[a]) by {
                assert(rest[a] == w.queue[a + 1]);
            }
            if ready(acts, w.planned, v) {
                let succs = acts[position(acts, v)].successors;
                lemma_enqueued(acts, rest, succs, acts.len() as int);
                assert forall|a: int| 0 <= a < next.queue.len() implies has_id(
                    acts,
                    #[trigger] next.queue[a],
                ) by {
                    let grown = enqueued(acts, rest, succs, acts.len() as int);
                    assert(next.queue[a] == grown[a]);
                    if a < rest.len() {
                        assert(grown[a] == rest[a]);
                    }
                }
            } else {
                assert forall|a: int| 0 <= a < next.queue.len() implies has_id(
                    acts,
                    #[trigger] next.queue[a],
                ) by {
                    if a < rest.len() {
                        assert(next.queue[a] == rest[a]);
                    } else {
                        assert(next.queue[a] == w.queue[0]);
                    }
                }
            }
        }
    } else {
        assert(has_id(acts, acts[0].id));
    }
}

/// The walk does not look at start times.
pub proof fn lemma_walk_network(a: Seq<ActivityView>, b: Seq<ActivityView>, steps: nat)
    requires
        same_network(a, b),
        a.len() > 0,
    ensures
        walk(a, steps) == walk(b, steps),
    decreases steps,
{
    lemma_same_network(a, b);
    if steps > 0 {
        lemma_walk_network(a, b, (steps - 1) as nat);
        lemma_walk_known(a, (steps - 1) as nat);
        let w = walk(a, (steps - 1) as nat);
        if w.queue.len() > 0 {
            let v = w.queue[0];
            let rest = w.queue.drop_first();
            assert(has_id(a, w.queue[0]));
            lemma_position(a, v);
            assert(a[position(a, v)].predecessors == b[position(b, v)].predecessors);
            assert(a[position(a, v)].successors == b[position(b, v)].successors);
            assert(ready(a, w.planned, v) == ready(b, w.planned, v));
            lemma_enqueued_network(a, b, rest, a[position(a, v)].successors, a.len() as int);
        }
    } else {
        assert(b[0].id == a[0].id);
    }
}

proof fn lemma_enqueued_network(
    a: Seq<ActivityView>,
    b: Seq<ActivityView>,
    queue: Seq<u32>,
    succs: Seq<u32>,
    m: int,
)
    requires
        same_network(a, b),
        0 <= m <= a.len(),
    ensures
        enqueued(a, queue, succs, m) == enqueued(b, queue, succs, m),
    decreases m,
{
    lemma_same_network(a, b);
    if m > 0 {
        lemma_enqueued_network(a, b, queue, succs, m - 1);
        assert(a[m - 1].id == b[m - 1].id);
    }
}

/// The breadth-first order does not look at start times.
pub proof fn lemma_breadth_first_network(
    a: Seq<ActivityView>,
    b: Seq<ActivityView>,
    planning: Seq<u32>,
)
    requires
        same_network(a, b),
        a.len() > 0,
        breadth_first(a, planning),
    ensures
        breadth_first(b, planning),
{
    let steps = choose|steps: nat|
        (#[trigger] walk(a, steps)).queue.len() == 0 && walk(a, steps).planned == planning;
    lemma_walk_network(a, b, steps);
}

} // verus!
