//! The unit-duration expansion of a project: every activity becomes a chain
//! of activities of duration 1, so that a schedule of the chain is a
//! schedule of the activity with interruptions.

use vstd::prelude::*;
use crate::model::{
    all_known, arcs_known, arcs_mirrored, declared, distinct_ids, has_dummies, has_id,
    lemma_position_distinct, names_predecessor, names_successor, position, respects, schema,
    supplies_fit, usage_of, ActivityView, ProjectView, UNPLANNED,
};
use crate::text::decimal;

verus! {

/// An activity together with the chain that takes its place.
pub struct SubsView {
    pub origin: ActivityView,
    pub subs: Seq<ActivityView>,
}

/// The first and the last activity are the dummies.
pub open spec fn is_end(acts: Seq<ActivityView>, i: int) -> bool {
    i == 0 || i == acts.len() - 1
}

/// The length of the chain that takes the place of the activity at `i`: one
/// for a dummy, else its duration.
pub open spec fn span(acts: Seq<ActivityView>, i: int) -> int {
    if is_end(acts, i) {
        1
    } else {
        acts[i].duration as int
    }
}

/// The number of unit activities that stand before the chain of the
/// activity at `i`.
pub open spec fn offset(acts: Seq<ActivityView>, i: int) -> int
    decreases i,
{
    if i <= 0 {
        0
    } else {
        offset(acts, i - 1) + span(acts, i - 1)
    }
}

/// The unit activity at place `o` in a chain of length `len` that stands for
/// the activity at `i`. Identities count from 1 in the order of the chains.
pub open spec fn unit(acts: Seq<ActivityView>, i: int, o: int, len: int) -> ActivityView {
    let id = (offset(acts, i) + o + 1) as u32;
    ActivityView {
        id,
        parent: if i == 0 {
            1
        } else {
            acts[i].id as i32
        },
        name: decimal(id as nat),
        predecessors: if o > 0 {
            seq![(id - 1) as u32]
        } else {
            Seq::empty()
        },
        successors: if o < len - 1 {
            seq![(id + 1) as u32]
        } else {
            Seq::empty()
        },
        supplies: if is_end(acts, i) {
            Seq::empty()
        } else {
            acts[i].supplies
        },
        duration: if is_end(acts, i) {
            0
        } else {
            1
        },
        start_time: UNPLANNED,
    }
}

/// The first `len` unit activities that stand for the activity at `i`,
/// chained one to the next.
pub open spec fn chain(acts: Seq<ActivityView>, i: int, len: int) -> Seq<ActivityView> {
    Seq::new(len as nat, |o: int| unit(acts, i, o, len))
}

/// Every activity with its chain.
pub open spec fn split_of(acts: Seq<ActivityView>) -> Seq<SubsView> {
    Seq::new(acts.len(), |i: int| SubsView { origin: acts[i], subs: chain(acts, i, span(acts, i)) })
}

/// The last unit activities of those of the first `m` chains whose origin
/// `ids` names, in the order of the chains.
pub open spec fn ends_of(pairs: Seq<SubsView>, ids: Seq<u32>, m: int) -> Seq<u32>
    decreases m,
{
    if m <= 0 {
        Seq::empty()
    } else {
        let r = ends_of(pairs, ids, m - 1);
        if ids.contains(pairs[m - 1].origin.id) {
            r.push(pairs[m - 1].subs.last().id)
        } else {
            r
        }
    }
}

/// The first unit activities of those of the first `m` chains whose origin
/// `ids` names, in the order of the chains.
pub open spec fn starts_of(pairs: Seq<SubsView>, ids: Seq<u32>, m: int) -> Seq<u32>
    decreases m,
{
    if m <= 0 {
        Seq::empty()
    } else {
        let r = starts_of(pairs, ids, m - 1);
        if ids.contains(pairs[m - 1].origin.id) {
            r.push(pairs[m - 1].subs.first().id)
        } else {
            r
        }
    }
}

/// `a` with `more` after its predecessors.
pub open spec fn with_predecessors(a: ActivityView, more: Seq<u32>) -> ActivityView {
    ActivityView { predecessors: a.predecessors + more, ..a }
}

/// `a` with `more` after its successors.
pub open spec fn with_successors(a: ActivityView, more: Seq<u32>) -> ActivityView {
    ActivityView { successors: a.successors + more, ..a }
}

/// The chain at `i` tied into the network: its first unit activity comes
/// after the last of every chain that stands for a predecessor of the
/// origin, its last before the first of every chain that stands for a
/// successor.
pub open spec fn linked_chain(pairs: Seq<SubsView>, i: int) -> Seq<ActivityView> {
    let subs = pairs[i].subs;
    let entered = subs.update(
        0,
        with_predecessors(
            subs[0],
            ends_of(pairs, pairs[i].origin.predecessors, pairs.len() as int),
        ),
    );
    entered.update(
        entered.len() - 1,
        with_successors(
            entered.last(),
            starts_of(pairs, pairs[i].origin.successors, pairs.len() as int),
        ),
    )
}

/// The first `m` chains, tied into the network, one after the other.
pub open spec fn linked(pairs: Seq<SubsView>, m: int) -> Seq<ActivityView>
    decreases m,
{
    if m <= 0 {
        Seq::empty()
    } else {
        linked(pairs, m - 1) + linked_chain(pairs, m - 1)
    }
}

/// The unit-duration expansion of the network `acts`.
pub open spec fn expanded(acts: Seq<ActivityView>) -> Seq<ActivityView> {
    linked(split_of(acts), acts.len() as int)
}

/// The network has its two dummies, its expansion can be numbered within
/// `u32`, and the identities fit the parent field.
pub open spec fn expansible(acts: Seq<ActivityView>) -> bool {
    &&& acts.len() >= 2
    &&& offset(acts, acts.len() as int) <= u32::MAX
    &&& forall|i: int| 0 <= i < acts.len() ==> (#[trigger] acts[i]).id <= i32::MAX
}

/// Every activity between the dummies takes time.
pub open spec fn takes_time(acts: Seq<ActivityView>) -> bool {
    forall|i: int| 0 < i < acts.len() - 1 ==> (#[trigger] acts[i]).duration >= 1
}

/// The chains lie one after the other.
pub proof fn lemma_offset_grows(acts: Seq<ActivityView>, i: int, j: int)
    requires
        0 <= i <= j,
    ensures
        0 <= offset(acts, i) <= offset(acts, j),
    decreases j,
{
    if i < j {
        lemma_offset_grows(acts, i, j - 1);
    } else if i > 0 {
        lemma_offset_grows(acts, i - 1, i - 1);
        lemma_offset_grows(acts, 0, i - 1);
    }
}

/// The expansion holds the chains one after the other: its length is the
/// sum of their lengths, and the unit activity at place `o` of the chain of
/// the activity at `i` stands at place `offset(acts, i) + o`.
pub proof fn lemma_linked_at(acts: Seq<ActivityView>, m: int, i: int, o: int)
    requires
        0 <= i < m <= acts.len(),
        0 <= o < span(acts, i),
        takes_time(acts),
    ensures
        linked(split_of(acts), m).len() == offset(acts, m),
        0 <= offset(acts, i) + o < offset(acts, m),
        linked(split_of(acts), m)[offset(acts, i) + o] == linked_chain(split_of(acts), i)[o],
    decreases m,
{
    let pairs = split_of(acts);
    lemma_linked_len(acts, m);
    lemma_linked_len(acts, m - 1);
    lemma_offset_grows(acts, i, m - 1);
    lemma_offset_grows(acts, 0, i);
    assert(pairs[m - 1].subs.len() == span(acts, m - 1));
    if i < m - 1 {
        lemma_linked_at(acts, m - 1, i, o);
        assert(offset(acts, i + 1) == offset(acts, i) + span(acts, i));
        lemma_offset_grows(acts, i + 1, m - 1);
    } else {
        assert(linked_chain(pairs, i).len() == span(acts, i));
    }
}

/// The length of the first `m` chains together.
pub proof fn lemma_linked_len(acts: Seq<ActivityView>, m: int)
    requires
        0 <= m <= acts.len(),
        takes_time(acts),
    ensures
        linked(split_of(acts), m).len() == offset(acts, m),
    decreases m,
{
    if m > 0 {
        lemma_linked_len(acts, m - 1);
        let pairs = split_of(acts);
        assert(pairs[m - 1].subs.len() == span(acts, m - 1));
        assert(span(acts, m - 1) >= 1) by {
            if !is_end(acts, m - 1) {
                assert(acts[m - 1].duration >= 1);
            }
        }
        assert(linked_chain(pairs, m - 1).len() == span(acts, m - 1));
    }
}

/// The identity of the last unit activity of the chain of the activity at `i`.
pub open spec fn last_unit(acts: Seq<ActivityView>, i: int) -> int {
    offset(acts, i) + span(acts, i)
}

/// The identity of the first unit activity of the chain of the activity at `i`.
pub open spec fn first_unit(acts: Seq<ActivityView>, i: int) -> int {
    offset(acts, i) + 1
}

/// What `ends_of` holds: the last unit activities of the chains of the
/// activities that `ids` names.
pub proof fn lemma_ends_of(acts: Seq<ActivityView>, ids: Seq<u32>, m: int, x: u32)
    requires
        0 <= m <= acts.len(),
        takes_time(acts),
        expansible(acts),
    ensures
        ends_of(split_of(acts), ids, m).contains(x) <==> exists|u: int|
            0 <= u < m && ids.contains((#[trigger] acts[u]).id) && x == last_unit(acts, u),
    decreases m,
{
    let pairs = split_of(acts);
    if m > 0 {
        lemma_ends_of(acts, ids, m - 1, x);
        let r = ends_of(pairs, ids, m - 1);
        let now = ends_of(pairs, ids, m);
        let len = span(acts, m - 1);
        assert(len >= 1) by {
            if !is_end(acts, m - 1) {
                assert(acts[m - 1].duration >= 1);
            }
        }
        lemma_offset_grows(acts, m, acts.len() as int);
        lemma_offset_grows(acts, 0, m - 1);
        assert(pairs[m - 1].subs.last() == unit(acts, m - 1, len - 1, len));
        assert(pairs[m - 1].subs.last().id == last_unit(acts, m - 1));
        if now.contains(x) {
            let a = choose|a: int| 0 <= a < now.len() && now[a] == x;
            if a < r.len() {
                assert(r[a] == x);
                assert(r.contains(x));
                let u = choose|u: int|
                    0 <= u < m - 1 && ids.contains((#[trigger] acts[u]).id) && x == last_unit(
                        acts,
                        u,
                    );
                assert(0 <= u < m && ids.contains(acts[u].id) && x == last_unit(acts, u));
            } else {
                assert(ids.contains(acts[m - 1].id) && x == last_unit(acts, m - 1));
            }
        }
        if exists|u: int|
            0 <= u < m && ids.contains((#[trigger] acts[u]).id) && x == last_unit(acts, u) {
            let u = choose|u: int|
                0 <= u < m && ids.contains((#[trigger] acts[u]).id) && x == last_unit(acts, u);
            if u < m - 1 {
                assert(r.contains(x));
                let a = choose|a: int| 0 <= a < r.len() && r[a] == x;
                assert(now[a] == x);
            } else {
                assert(now[r.len() as int] == x);
            }
        }
    }
}

/// What `starts_of` holds: the first unit activities of the chains of the
/// activities that `ids` names.
pub proof fn lemma_starts_of(acts: Seq<ActivityView>, ids: Seq<u32>, m: int, x: u32)
    requires
        0 <= m <= acts.len(),
        takes_time(acts),
        expansible(acts),
    ensures
        starts_of(split_of(acts), ids, m).contains(x) <==> exists|u: int|
            0 <= u < m && ids.contains((#[trigger] acts[u]).id) && x == first_unit(acts, u),
    decreases m,
{
    let pairs = split_of(acts);
    if m > 0 {
        lemma_starts_of(acts, ids, m - 1, x);
        let r = starts_of(pairs, ids, m - 1);
        let now = starts_of(pairs, ids, m);
        let len = span(acts, m - 1);
        assert(len >= 1) by {
            if !is_end(acts, m - 1) {
                assert(acts[m - 1].duration >= 1);
            }
        }
        lemma_offset_grows(acts, m, acts.len() as int);
        lemma_offset_grows(acts, 0, m - 1);
        assert(pairs[m - 1].subs.first() == unit(acts, m - 1, 0, len));
        assert(pairs[m - 1].subs.first().id == first_unit(acts, m - 1));
        if now.contains(x) {
            let a = choose|a: int| 0 <= a < now.len() && now[a] == x;
            if a < r.len() {
                assert(r[a] == x);
                assert(r.contains(x));
                let u = choose|u: int|
                    0 <= u < m - 1 && ids.contains((#[trigger] acts[u]).id) && x == first_unit(
                        acts,
                        u,
                    );
                assert(0 <= u < m && ids.contains(acts[u].id) && x == first_unit(acts, u));
            } else {
                assert(ids.contains(acts[m - 1].id) && x == first_unit(acts, m - 1));
            }
        }
        if exists|u: int|
            0 <= u < m && ids.contains((#[trigger] acts[u]).id) && x == first_unit(acts, u) {
            let u = choose|u: int|
                0 <= u < m && ids.contains((#[trigger] acts[u]).id) && x == first_unit(acts, u);
            if u < m - 1 {
                assert(r.contains(x));
                let a = choose|a: int| 0 <= a < r.len() && r[a] == x;
                assert(now[a] == x);
            } else {
                assert(now[r.len() as int] == x);
            }
        }
    }
}

/// The expansion is what it is meant to be. The activity at `i` of duration
/// `d` is replaced by exactly `d` unit activities (a dummy by one), numbered
/// on from `offset(acts, i) + 1`; each comes after the one before it and
/// nothing else, but for the first, whose predecessors are exactly the last
/// unit activities of the predecessors of the origin; and each comes
/// before the one after it and nothing else, but for the last, whose
/// successors are exactly the first unit activities of the successors of
/// the origin.
pub proof fn lemma_expansion(acts: Seq<ActivityView>, i: int, o: int)
    requires
        expansible(acts),
        takes_time(acts),
        0 <= i < acts.len(),
        0 <= o < span(acts, i),
    ensures
        expanded(acts).len() == offset(acts, acts.len() as int),
        0 <= offset(acts, i) + o < expanded(acts).len(),
        ({
            let e = expanded(acts)[offset(acts, i) + o];
            let len = span(acts, i);
            &&& e.id == offset(acts, i) + o + 1
            &&& e.parent == unit(acts, i, o, len).parent
            &&& e.duration == unit(acts, i, o, len).duration
            &&& e.supplies == unit(acts, i, o, len).supplies
            &&& e.start_time == UNPLANNED
            &&& o > 0 ==> e.predecessors == seq![(e.id - 1) as u32]
            &&& o < len - 1 ==> e.successors == seq![(e.id + 1) as u32]
            &&& o == 0 ==> forall|x: u32|
                e.predecessors.contains(x) <==> exists|u: int|
                    0 <= u < acts.len() && acts[i].predecessors.contains((#[trigger] acts[u]).id)
                        && x == last_unit(acts, u)
            &&& o == len - 1 ==> forall|x: u32|
                e.successors.contains(x) <==> exists|u: int|
                    0 <= u < acts.len() && acts[i].successors.contains((#[trigger] acts[u]).id)
                        && x == first_unit(acts, u)
        }),
{
    let n = acts.len() as int;
    let pairs = split_of(acts);
    let len = span(acts, i);
    lemma_linked_at(acts, n, i, o);
    lemma_offset_grows(acts, 0, i);
    lemma_offset_grows(acts, i + 1, n);
    assert(offset(acts, i + 1) == offset(acts, i) + span(acts, i));
    let e = expanded(acts)[offset(acts, i) + o];
    let subs = pairs[i].subs;
    assert(subs == chain(acts, i, len));
    assert(subs[o] == unit(acts, i, o, len));
    let ends = ends_of(pairs, pairs[i].origin.predecessors, n);
    let starts = starts_of(pairs, pairs[i].origin.successors, n);
    let entered = subs.update(0, with_predecessors(subs[0], ends));
    assert(e == linked_chain(pairs, i)[o]);
    if o > 0 {
        assert(e.predecessors == subs[o].predecessors);
    }
    if o < len - 1 {
        assert(e.successors == subs[o].successors);
    }
    if o == 0 {
        assert(e.predecessors =~= ends);
        assert forall|x: u32|
            e.predecessors.contains(x) <==> exists|u: int|
                0 <= u < acts.len() && acts[i].predecessors.contains((#[trigger] acts[u]).id) && x
                    == last_unit(acts, u) by {
            lemma_ends_of(acts, acts[i].predecessors, n, x);
        }
    }
    if o == len - 1 {
        assert(e.successors =~= starts);
        assert forall|x: u32|
            e.successors.contains(x) <==> exists|u: int|
                0 <= u < acts.len() && acts[i].successors.contains((#[trigger] acts[u]).id) && x
                    == first_unit(acts, u) by {
            lemma_starts_of(acts, acts[i].successors, n, x);
        }
    }
}

/// Every unit activity of the expansion belongs to the chain of one
/// activity.
pub proof fn lemma_owner(acts: Seq<ActivityView>, m: int, j: int) -> (r: (int, int))
    requires
        0 <= m <= acts.len(),
        takes_time(acts),
        0 <= j < offset(acts, m),
    ensures
        0 <= r.0 < m,
        0 <= r.1 < span(acts, r.0),
        j == offset(acts, r.0) + r.1,
    decreases m,
{
    lemma_offset_grows(acts, 0, m - 1);
    if j >= offset(acts, m - 1) {
        (m - 1, j - offset(acts, m - 1))
    } else {
        lemma_owner(acts, m - 1, j)
    }
}

/// A rank for the expansion: the rank of the origin, and within a chain the
/// place in it.
pub open spec fn unit_ranks(acts: Seq<ActivityView>, rank: Seq<nat>, m: int) -> Seq<nat>
    decreases m,
{
    if m <= 0 {
        Seq::empty()
    } else {
        unit_ranks(acts, rank, m - 1) + Seq::new(
            span(acts, m - 1) as nat,
            |o: int| (rank[m - 1] * 0x2_0000_0000 + o) as nat,
        )
    }
}

proof fn lemma_unit_ranks(acts: Seq<ActivityView>, rank: Seq<nat>, m: int, i: int, o: int)
    requires
        0 <= i < m <= acts.len(),
        0 <= o < span(acts, i),
        takes_time(acts),
    ensures
        unit_ranks(acts, rank, m).len() == offset(acts, m),
        unit_ranks(acts, rank, m)[offset(acts, i) + o] == rank[i] * 0x2_0000_0000 + o,
    decreases m,
{
    lemma_unit_ranks_len(acts, rank, m);
    lemma_unit_ranks_len(acts, rank, m - 1);
    lemma_offset_grows(acts, i, m - 1);
    lemma_offset_grows(acts, 0, i);
    if i < m - 1 {
        lemma_unit_ranks(acts, rank, m - 1, i, o);
        assert(offset(acts, i + 1) == offset(acts, i) + span(acts, i));
        lemma_offset_grows(acts, i + 1, m - 1);
    }
}

proof fn lemma_unit_ranks_len(acts: Seq<ActivityView>, rank: Seq<nat>, m: int)
    requires
        0 <= m <= acts.len(),
        takes_time(acts),
    ensures
        unit_ranks(acts, rank, m).len() == offset(acts, m),
    decreases m,
{
    if m > 0 {
        lemma_unit_ranks_len(acts, rank, m - 1);
        assert(span(acts, m - 1) >= 1) by {
            if !is_end(acts, m - 1) {
                assert(acts[m - 1].duration >= 1);
            }
        }
    }
}

/// In the expansion every unit activity stands at the place before its
/// identity.
pub proof fn lemma_expanded_ids(acts: Seq<ActivityView>)
    requires
        expansible(acts),
        takes_time(acts),
    ensures
        expanded(acts).len() == offset(acts, acts.len() as int),
        expanded(acts).len() >= 2,
        forall|j: int| 0 <= j < expanded(acts).len() ==> (#[trigger] expanded(acts)[j]).id == j + 1,
        distinct_ids(expanded(acts)),
        forall|x: u32| 1 <= x <= expanded(acts).len() ==> #[trigger] has_id(expanded(acts), x),
        forall|x: u32|
            1 <= x <= expanded(acts).len() ==> #[trigger] position(expanded(acts), x) == x - 1,
{
    let n = acts.len() as int;
    let e = expanded(acts);
    lemma_linked_len(acts, n);
    lemma_offset_grows(acts, 2, n);
    assert(offset(acts, 2) == offset(acts, 1) + span(acts, 1));
    assert(offset(acts, 1) == offset(acts, 0) + span(acts, 0));
    assert(span(acts, 1) >= 1) by {
        if !is_end(acts, 1) {
            assert(acts[1].duration >= 1);
        }
    }
    assert forall|j: int| 0 <= j < e.len() implies (#[trigger] e[j]).id == j + 1 by {
        let (i, o) = lemma_owner(acts, n, j);
        lemma_expansion(acts, i, o);
    }
    assert forall|x: u32| 1 <= x <= e.len() implies #[trigger] has_id(e, x) by {
        assert(e[x - 1].id == x);
    }
    assert forall|x: u32| 1 <= x <= e.len() implies #[trigger] position(e, x) == x - 1 by {
        assert(e[x - 1].id == x);
        lemma_position_distinct(e, x - 1);
    }
}

/// The expansion of a network is a network: the dummies stand at its ends,
/// the identities are distinct, every arc leads to a unit activity and is
/// recorded at both of its ends, there is no cycle, and the usages are
/// those of the origins.
pub proof fn lemma_expansion_schema(p: ProjectView)
    requires
        schema(p),
        expansible(p.activities),
        takes_time(p.activities),
    ensures
        schema(ProjectView { activities: expanded(p.activities), resources: p.resources }),
{
    let acts = p.activities;
    let n = acts.len() as int;
    let e = expanded(acts);
    let q = ProjectView { activities: e, resources: p.resources };
    lemma_expanded_ids(acts);
    lemma_offset_grows(acts, 0, n - 1);
    assert(offset(acts, n) == offset(acts, n - 1) + span(acts, n - 1));
    // what stands at each place
    assert forall|j: int| 0 <= j < e.len() implies (#[trigger] e[j]).predecessors.len() == 0 <==> j
        == 0 by {
        let (i, o) = lemma_owner(acts, n, j);
        lemma_expansion(acts, i, o);
        lemma_offset_grows(acts, 0, i);
        if o == 0 {
            if i == 0 {
                if e[j].predecessors.len() > 0 {
                    let x = e[j].predecessors[0];
                    assert(e[j].predecessors.contains(x));
                }
            } else {
                assert(offset(acts, i) >= offset(acts, 1)) by {
                    lemma_offset_grows(acts, 1, i);
                }
                assert(offset(acts, 1) == offset(acts, 0) + span(acts, 0));
                let pid = acts[i].predecessors[0];
                assert(all_known(acts, acts[i].predecessors));
                assert(has_id(acts, pid));
                let u = choose|u: int| 0 <= u < acts.len() && (#[trigger] acts[u]).id == pid;
                assert(acts[i].predecessors.contains(acts[u].id));
                lemma_offset_grows(acts, u + 1, n);
                lemma_offset_grows(acts, 0, u);
                assert(offset(acts, u + 1) == offset(acts, u) + span(acts, u));
                assert(e[j].predecessors.contains(last_unit(acts, u) as u32));
            }
        } else {
            assert(offset(acts, i) >= 0);
        }
    }
    assert forall|j: int| 0 <= j < e.len() implies (#[trigger] e[j]).successors.len() == 0 <==> j
        == e.len() - 1 by {
        let (i, o) = lemma_owner(acts, n, j);
        lemma_expansion(acts, i, o);
        lemma_offset_grows(acts, i + 1, n);
        assert(offset(acts, i + 1) == offset(acts, i) + span(acts, i));
        if o == span(acts, i) - 1 {
            if i == n - 1 {
                if e[j].successors.len() > 0 {
                    let x = e[j].successors[0];
                    assert(e[j].successors.contains(x));
                }
            } else {
                lemma_offset_grows(acts, i + 1, n - 1);
                let sid = acts[i].successors[0];
                assert(all_known(acts, acts[i].successors));
                assert(has_id(acts, sid));
                let u = choose|u: int| 0 <= u < acts.len() && (#[trigger] acts[u]).id == sid;
                assert(acts[i].successors.contains(acts[u].id));
                lemma_offset_grows(acts, u + 1, n);
                lemma_offset_grows(acts, 0, u);
                assert(offset(acts, u + 1) == offset(acts, u) + span(acts, u));
                assert(e[j].successors.contains(first_unit(acts, u) as u32));
            }
        }
    }
    assert(has_dummies(e)) by {
        lemma_expansion(acts, 0, 0);
        lemma_expansion(acts, n - 1, 0);
        assert(e.last() == e[offset(acts, n - 1) + 0]);
    }
    // every arc leads to a unit activity, and back
    assert forall|j: int| 0 <= j < e.len() implies all_known(e, (#[trigger] e[j]).predecessors)
        && all_known(e, e[j].successors) by {
        lemma_arcs_of_unit(p, j);
    }
    assert forall|j: int, k: int|
        0 <= j < e.len() && 0 <= k < e[j].predecessors.len() implies names_successor(
        e,
        #[trigger] e[j].predecessors[k],
        e[j].id,
    ) by {
        lemma_arcs_of_unit(p, j);
    }
    assert forall|j: int, k: int|
        0 <= j < e.len() && 0 <= k < e[j].successors.len() implies names_predecessor(
        e,
        #[trigger] e[j].successors[k],
        e[j].id,
    ) by {
        lemma_arcs_of_unit(p, j);
    }
    assert(arcs_known(e));
    assert(arcs_mirrored(e));
    // no cycle
    let rank = choose|rank: Seq<nat>| respects(acts, rank);
    let ranks = unit_ranks(acts, rank, n);
    lemma_unit_ranks_len(acts, rank, n);
    assert forall|j: int, k: int|
        0 <= j < e.len() && 0 <= k < e[j].predecessors.len() implies ranks[position(
        e,
        #[trigger] e[j].predecessors[k],
    )] < ranks[j] by {
        lemma_arcs_of_unit(p, j);
        let (i, o) = lemma_owner(acts, n, j);
        lemma_expansion(acts, i, o);
        lemma_unit_ranks(acts, rank, n, i, o);
        let x = e[j].predecessors[k];
        assert(e[j].predecessors.contains(x));
        if o > 0 {
            lemma_unit_ranks(acts, rank, n, i, o - 1);
            assert(position(e, x) == j - 1);
        } else {
            let u = choose|u: int|
                0 <= u < acts.len() && acts[i].predecessors.contains((#[trigger] acts[u]).id) && x
                    == last_unit(acts, u);
            lemma_unit_ranks(acts, rank, n, u, span(acts, u) - 1);
            let pid = acts[u].id;
            let m = choose|m: int|
                0 <= m < acts[i].predecessors.len() && acts[i].predecessors[m] == pid;
            lemma_position_distinct(acts, u);
            assert(rank[position(acts, acts[i].predecessors[m])] < rank[i]);
            assert(span(acts, u) <= u32::MAX);
            assert(position(e, x) == offset(acts, u) + span(acts, u) - 1);
        }
    }
    assert(respects(e, ranks));
    // the usages are those of the origins
    assert forall|j: int, k: int| 0 <= j < e.len() && 0 <= k < e[j].supplies.len() implies {
        let s = #[trigger] e[j].supplies[k];
        declared(q.resources, s.resource) && usage_of(e[j].supplies, s.resource.id)
            <= s.resource.capacity
    } by {
        let (i, o) = lemma_owner(acts, n, j);
        lemma_expansion(acts, i, o);
        assert(e[j].supplies == acts[i].supplies);
        let s = acts[i].supplies[k];
        assert(declared(p.resources, s.resource));
    }
    assert(supplies_fit(q));
}

/// The arcs of the unit activity at place `j` of the expansion lead to unit
/// activities that record them too.
proof fn lemma_arcs_of_unit(p: ProjectView, j: int)
    requires
        schema(p),
        expansible(p.activities),
        takes_time(p.activities),
        0 <= j < expanded(p.activities).len(),
    ensures
        ({
            let e = expanded(p.activities);
            &&& all_known(e, e[j].predecessors)
            &&& all_known(e, e[j].successors)
            &&& forall|k: int|
                0 <= k < e[j].predecessors.len() ==> names_successor(
                    e,
                    #[trigger] e[j].predecessors[k],
                    e[j].id,
                )
            &&& forall|k: int|
                0 <= k < e[j].successors.len() ==> names_predecessor(
                    e,
                    #[trigger] e[j].successors[k],
                    e[j].id,
                )
        }),
{
    let acts = p.activities;
    let n = acts.len() as int;
    let e = expanded(acts);
    lemma_expanded_ids(acts);
    let (i, o) = lemma_owner(acts, n, j);
    lemma_expansion(acts, i, o);
    lemma_offset_grows(acts, 0, i);
    lemma_offset_grows(acts, i + 1, n);
    assert(offset(acts, i + 1) == offset(acts, i) + span(acts, i));
    let len = span(acts, i);
    assert forall|k: int| 0 <= k < e[j].predecessors.len() implies has_id(
        e,
        #[trigger] e[j].predecessors[k],
    ) && names_successor(e, e[j].predecessors[k], e[j].id) by {
        let x = e[j].predecessors[k];
        assert(e[j].predecessors.contains(x));
        if o > 0 {
            assert(x == j);
            lemma_expansion(acts, i, o - 1);
            assert(position(e, x) == j - 1);
            assert(e[j - 1].successors[0] == e[j].id);
        } else {
            let u = choose|u: int|
                0 <= u < acts.len() && acts[i].predecessors.contains((#[trigger] acts[u]).id) && x
                    == last_unit(acts, u);
            lemma_offset_grows(acts, 0, u);
            lemma_offset_grows(acts, u + 1, n);
            assert(offset(acts, u + 1) == offset(acts, u) + span(acts, u));
            assert(span(acts, u) >= 1) by {
                if !is_end(acts, u) {
                    assert(acts[u].duration >= 1);
                }
            }
            lemma_expansion(acts, u, span(acts, u) - 1);
            assert(position(e, x) == x - 1);
            // the origin of the predecessor names the origin as a successor
            let m = choose|m: int|
                0 <= m < acts[i].predecessors.len() && acts[i].predecessors[m] == acts[u].id;
            assert(names_successor(acts, acts[i].predecessors[m], acts[i].id));
            lemma_position_distinct(acts, u);
            assert(acts[u].successors.contains(acts[i].id));
            assert(e[x - 1].successors.contains(first_unit(acts, i) as u32));
        }
    }
    assert forall|k: int| 0 <= k < e[j].successors.len() implies has_id(
        e,
        #[trigger] e[j].successors[k],
    ) && names_predecessor(e, e[j].successors[k], e[j].id) by {
        let x = e[j].successors[k];
        assert(e[j].successors.contains(x));
        if o < len - 1 {
            assert(x == j + 2);
            lemma_expansion(acts, i, o + 1);
            assert(position(e, x) == j + 1);
            assert(e[j + 1].predecessors[0] == e[j].id);
        } else {
            let u = choose|u: int|
                0 <= u < acts.len() && acts[i].successors.contains((#[trigger] acts[u]).id) && x
                    == first_unit(acts, u);
            lemma_offset_grows(acts, 0, u);
            lemma_offset_grows(acts, u + 1, n);
            assert(offset(acts, u + 1) == offset(acts, u) + span(acts, u));
            assert(span(acts, u) >= 1) by {
                if !is_end(acts, u) {
                    assert(acts[u].duration >= 1);
                }
            }
            lemma_expansion(acts, u, 0);
            assert(position(e, x) == x - 1);
            let m = choose|m: int|
                0 <= m < acts[i].successors.len() && acts[i].successors[m] == acts[u].id;
            assert(names_predecessor(acts, acts[i].successors[m], acts[i].id));
            lemma_position_distinct(acts, u);
            assert(acts[u].predecessors.contains(acts[i].id));
            assert(e[x - 1].predecessors.contains(last_unit(acts, i) as u32));
        }
    }
}

/// The last unit activities rise with their chains.
proof fn lemma_ends_rising(acts: Seq<ActivityView>, ids: Seq<u32>, m: int)
    requires
        0 <= m <= acts.len(),
        takes_time(acts),
        expansible(acts),
    ensures
        forall|a: int|
            0 <= a < ends_of(split_of(acts), ids, m).len() ==> (#[trigger] ends_of(
                split_of(acts),
                ids,
                m,
            )[a]) <= offset(acts, m),
        forall|a: int, b: int|
            0 <= a < b < ends_of(split_of(acts), ids, m).len() ==> (#[trigger] ends_of(
                split_of(acts),
                ids,
                m,
            )[a]) < (#[trigger] ends_of(split_of(acts), ids, m)[b]),
    decreases m,
{
    let pairs = split_of(acts);
    if m > 0 {
        lemma_ends_rising(acts, ids, m - 1);
        let r = ends_of(pairs, ids, m - 1);
        let now = ends_of(pairs, ids, m);
        let len = span(acts, m - 1);
        assert(len >= 1) by {
            if !is_end(acts, m - 1) {
                assert(acts[m - 1].duration >= 1);
            }
        }
        lemma_offset_grows(acts, m, acts.len() as int);
        lemma_offset_grows(acts, 0, m - 1);
        assert(pairs[m - 1].subs.last() == unit(acts, m - 1, len - 1, len));
        assert(pairs[m - 1].subs.last().id == offset(acts, m));
        assert forall|a: int| 0 <= a < now.len() implies (#[trigger] now[a]) <= offset(acts, m) by {
            if a < r.len() {
                assert(now[a] == r[a]);
            }
        }
        assert forall|a: int, b: int| 0 <= a < b < now.len() implies (#[trigger] now[a]) < (
        #[trigger] now[b]) by {
            assert(now[a] == r[a]);
            if b < r.len() {
                assert(now[b] == r[b]);
            }
        }
    }
}

/// The first unit activities rise with their chains.
proof fn lemma_starts_rising(acts: Seq<ActivityView>, ids: Seq<u32>, m: int)
    requires
        0 <= m <= acts.len(),
        takes_time(acts),
        expansible(acts),
    ensures
        forall|a: int|
            0 <= a < starts_of(split_of(acts), ids, m).len() ==> (#[trigger] starts_of(
                split_of(acts),
                ids,
                m,
            )[a]) <= offset(acts, m),
        forall|a: int, b: int|
            0 <= a < b < starts_of(split_of(acts), ids, m).len() ==> (#[trigger] starts_of(
                split_of(acts),
                ids,
                m,
            )[a]) < (#[trigger] starts_of(split_of(acts), ids, m)[b]),
    decreases m,
{
    let pairs = split_of(acts);
    if m > 0 {
        lemma_starts_rising(acts, ids, m - 1);
        let r = starts_of(pairs, ids, m - 1);
        let now = starts_of(pairs, ids, m);
        let len = span(acts, m - 1);
        assert(len >= 1) by {
            if !is_end(acts, m - 1) {
                assert(acts[m - 1].duration >= 1);
            }
        }
        lemma_offset_grows(acts, m, acts.len() as int);
        lemma_offset_grows(acts, 0, m - 1);
        assert(pairs[m - 1].subs.first() == unit(acts, m - 1, 0, len));
        assert(pairs[m - 1].subs.first().id == offset(acts, m - 1) + 1);
        assert forall|a: int| 0 <= a < now.len() implies (#[trigger] now[a]) <= offset(acts, m) by {
            if a < r.len() {
                assert(now[a] == r[a]);
            }
        }
        assert forall|a: int, b: int| 0 <= a < b < now.len() implies (#[trigger] now[a]) < (
        #[trigger] now[b]) by {
            assert(now[a] == r[a]);
            if b < r.len() {
                assert(now[b] == r[b]);
            }
        }
    }
}

/// No unit activity of the expansion names a neighbour twice.
pub proof fn lemma_expansion_distinct(acts: Seq<ActivityView>, i: int, o: int)
    requires
        expansible(acts),
        takes_time(acts),
        0 <= i < acts.len(),
        0 <= o < span(acts, i),
    ensures
        0 <= offset(acts, i) + o < expanded(acts).len(),
        expanded(acts)[offset(acts, i) + o].predecessors.no_duplicates(),
        expanded(acts)[offset(acts, i) + o].successors.no_duplicates(),
{
    let n = acts.len() as int;
    let pairs = split_of(acts);
    let len = span(acts, i);
    lemma_expansion(acts, i, o);
    lemma_linked_at(acts, n, i, o);
    let e = expanded(acts)[offset(acts, i) + o];
    let subs = pairs[i].subs;
    assert(subs == chain(acts, i, len));
    assert(subs[o] == unit(acts, i, o, len));
    let ends = ends_of(pairs, pairs[i].origin.predecessors, n);
    let starts = starts_of(pairs, pairs[i].origin.successors, n);
    assert(e == linked_chain(pairs, i)[o]);
    if o == 0 {
        assert(e.predecessors =~= ends);
        lemma_ends_rising(acts, acts[i].predecessors, n);
    }
    if o == len - 1 {
        assert(e.successors =~= starts);
        lemma_starts_rising(acts, acts[i].successors, n);
    }
}

} // verus!
