//! Activities of a project network.

use vstd::prelude::*;
use core::cmp::Ordering;
use crate::model::{ActivityView, UsageView};
use crate::rn_resource_usage::RnResourceUsage;

verus! {

/// One node of the project network. `predecessors` and `successors` hold the
/// identities of its neighbours; `start_time` is `UNPLANNED` until the
/// activity has been placed.
#[derive(Debug)]
pub struct Activity {
    pub id: u32,
    pub parent: i32,
    pub name: String,
    pub predecessors: Vec<u32>,
    pub successors: Vec<u32>,
    pub supplies: Vec<RnResourceUsage>,
    pub duration: u32,
    pub start_time: i32,
}

/// The usage records of an activity as plain values.
pub open spec fn usages_view(s: Seq<RnResourceUsage>) -> Seq<UsageView> {
    Seq::new(s.len(), |i: int| s[i]@)
}

/// A list of activities as plain values.
pub open spec fn activities_view(s: Seq<Activity>) -> Seq<ActivityView> {
    Seq::new(s.len(), |i: int| s[i]@)
}

impl View for Activity {
    type V = ActivityView;

    open spec fn view(&self) -> ActivityView {
        ActivityView {
            id: self.id,
            parent: self.parent,
            name: self.name@,
            predecessors: self.predecessors@,
            successors: self.successors@,
            supplies: usages_view(self.supplies@),
            duration: self.duration,
            start_time: self.start_time,
        }
    }
}

/// Copies a list of identities.
pub fn clone_ids(v: &Vec<u32>) -> (r: Vec<u32>)
    ensures
        r@ == v@,
{
    let mut r: Vec<u32> = Vec::new();
    let mut i: usize = 0;
    while i < v.len()
        invariant
            i <= v.len(),
            r@ == v@.take(i as int),
        decreases v.len() - i,
    {
        r.push(v[i]);
        assert(v@.take(i + 1) == v@.take(i as int).push(v@[i as int]));
        i += 1;
    }
    assert(v@.take(v.len() as int) == v@);
    r
}

/// Copies the usage records of an activity.
pub fn clone_supplies(v: &Vec<RnResourceUsage>) -> (r: Vec<RnResourceUsage>)
    ensures
        r@ == v@,
{
    let mut r: Vec<RnResourceUsage> = Vec::new();
    let mut i: usize = 0;
    while i < v.len()
        invariant
            i <= v.len(),
            r@ == v@.take(i as int),
        decreases v.len() - i,
    {
        r.push(v[i].clone());
        assert(v@.take(i + 1) == v@.take(i as int).push(v@[i as int]));
        i += 1;
    }
    assert(v@.take(v.len() as int) == v@);
    r
}

impl Activity {
    /// An activity with these fields.
    pub fn new(
        id: u32,
        parent: i32,
        name: String,
        predecessors: Vec<u32>,
        successors: Vec<u32>,
        supplies: Vec<RnResourceUsage>,
        duration: u32,
        start_time: i32,
    ) -> (a: Activity)
        ensures
            a.id == id,
            a.parent == parent,
            a.name == name,
            a.predecessors == predecessors,
            a.successors == successors,
            a.supplies == supplies,
            a.duration == duration,
            a.start_time == start_time,
    {
        Activity { id, parent, name, predecessors, successors, supplies, duration, start_time }
    }

    /// Records `id_anteccessor` as one more predecessor.
    pub fn add_anteccessor(&mut self, id_anteccessor: u32)
        ensures
            final(self)@ == (ActivityView {
                predecessors: old(self)@.predecessors.push(id_anteccessor),
                ..old(self)@
            }),
    {
        self.predecessors.push(id_anteccessor);
    }

    /// Records `id_successor` as one more successor.
    pub fn add_successor(&mut self, id_successor: u32)
        ensures
            final(self)@ == (ActivityView {
                successors: old(self)@.successors.push(id_successor),
                ..old(self)@
            }),
    {
        self.successors.push(id_successor);
    }

    /// Whether `activity` is among the predecessors of `self`.
    pub fn is_predecessor(&self, activity: Activity) -> (r: bool)
        ensures
            r == self@.predecessors.contains(activity.id),
    {
        contains_id(&self.predecessors, activity.id)
    }

    /// Whether `activity` is among the successors of `self`.
    pub fn is_successor(&self, activity: Activity) -> (r: bool)
        ensures
            r == self@.successors.contains(activity.id),
    {
        contains_id(&self.successors, activity.id)
    }
}

/// Whether `id` stands in `ids`.
pub fn contains_id(ids: &Vec<u32>, id: u32) -> (r: bool)
    ensures
        r == ids@.contains(id),
{
    let mut i: usize = 0;
    while i < ids.len()
        invariant
            i <= ids.len(),
            forall|j: int| 0 <= j < i ==> ids@[j] != id,
        decreases ids.len() - i,
    {
        if ids[i] == id {
            return true;
        }
        i += 1;
    }
    false
}

impl Clone for Activity {
    fn clone(&self) -> (r: Self)
        ensures
            r@ == self@,
    {
        Activity {
            id: self.id,
            parent: self.parent,
            name: self.name.clone(),
            predecessors: clone_ids(&self.predecessors),
            successors: clone_ids(&self.successors),
            supplies: clone_supplies(&self.supplies),
            duration: self.duration,
            start_time: self.start_time,
        }
    }
}

/// Two activities are the same activity when they carry the same identity.
impl PartialEq for Activity {
    fn eq(&self, other: &Self) -> (r: bool) {
        self.id == other.id
    }
}

impl vstd::std_specs::cmp::PartialEqSpecImpl for Activity {
    open spec fn obeys_eq_spec() -> bool {
        true
    }

    open spec fn eq_spec(&self, other: &Self) -> bool {
        self.id == other.id
    }
}

impl Eq for Activity {}

/// Activities are ordered by their identities.
impl PartialOrd for Activity {
    fn partial_cmp(&self, other: &Self) -> (r: Option<Ordering>) {
        Some(self.cmp(other))
    }
}

impl vstd::std_specs::cmp::PartialOrdSpecImpl for Activity {
    open spec fn obeys_partial_cmp_spec() -> bool {
        true
    }

    open spec fn partial_cmp_spec(&self, other: &Self) -> Option<Ordering> {
        Some(crate::model::order_of(self.id, other.id))
    }
}

impl Activity {
    /// How `self` stands to `other` in the order of identities.
    pub fn cmp(&self, other: &Self) -> (r: Ordering)
        ensures
            r == crate::model::order_of(self.id, other.id),
    {
        if self.id == other.id {
            return Ordering::Equal;
        } else if self.id < other.id {
            return Ordering::Less;
        }
        return Ordering::Greater;
    }
}

} // verus!
