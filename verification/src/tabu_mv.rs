//! The short-term memory of the tabu search.

use vstd::prelude::*;
use crate::activity::{clone_ids, contains_id};

verus! {

/// A move that is forbidden for a while: the activities it touched, and for
/// how many more iterations it stays forbidden.
#[derive(Debug)]
pub struct TabuMv {
    pub movements: Vec<u32>,
    pub tabu_time: u32,
}

/// What a record is to the contracts.
pub struct TabuView {
    pub movements: Seq<u32>,
    pub tabu_time: u32,
}

impl View for TabuMv {
    type V = TabuView;

    open spec fn view(&self) -> TabuView {
        TabuView { movements: self.movements@, tabu_time: self.tabu_time }
    }
}

/// A list of records as plain values.
pub open spec fn tabu_view(s: Seq<TabuMv>) -> Seq<TabuView> {
    Seq::new(s.len(), |i: int| s[i]@)
}

/// The record forbids the move that touches `activities`: it has
/// iterations left to stay, and the activities it holds are the same set.
pub open spec fn forbids(record: TabuView, activities: Seq<u32>) -> bool {
    record.tabu_time > 0 && activities.to_set() == record.movements.to_set()
}

/// Some record of `list` forbids the move that touches `activities`.
pub open spec fn listed(list: Seq<TabuView>, activities: Seq<u32>) -> bool {
    exists|i: int| 0 <= i < list.len() && forbids(#[trigger] list[i], activities)
}

impl TabuMv {
    /// A record that forbids the move on `movements` for `tabu_time` iterations.
    pub fn new(movements: Vec<u32>, tabu_time: u32) -> (r: TabuMv)
        ensures
            r.movements == movements,
            r.tabu_time == tabu_time,
    {
        TabuMv { movements, tabu_time }
    }

    /// Whether this record forbids the move that touches `activities`.
    pub fn is_tabu(&self, activities: Vec<u32>) -> (r: bool)
        ensures
            r == forbids(self@, activities@),
    {
        self.forbids_move(&activities)
    }

    /// As `is_tabu`, on a borrowed list.
    pub fn forbids_move(&self, activities: &Vec<u32>) -> (r: bool)
        ensures
            r == forbids(self@, activities@),
    {
        if self.tabu_time == 0 {
            return false;
        }
        let mut i: usize = 0;
        while i < activities.len()
            invariant
                i <= activities.len(),
                forall|j: int| 0 <= j < i ==> self@.movements.contains(#[trigger] activities@[j]),
            decreases activities.len() - i,
        {
            if !contains_id(&self.movements, activities[i]) {
                assert(activities@.to_set().contains(activities@[i as int]));
                return false;
            }
            i += 1;
        }
        let mut k: usize = 0;
        while k < self.movements.len()
            invariant
                k <= self.movements.len(),
                forall|j: int| 0 <= j < k ==> activities@.contains(#[trigger] self@.movements[j]),
            decreases self.movements.len() - k,
        {
            if !contains_id(activities, self.movements[k]) {
                assert(self@.movements.to_set().contains(self@.movements[k as int]));
                return false;
            }
            k += 1;
        }
        assert(activities@.to_set() =~= self@.movements.to_set()) by {
            assert forall|x: u32| activities@.contains(x) implies self@.movements.contains(x) by {
                let j = choose|j: int| 0 <= j < activities@.len() && activities@[j] == x;
                assert(self@.movements.contains(activities@[j]));
            }
            assert forall|x: u32| self@.movements.contains(x) implies activities@.contains(x) by {
                let j = choose|j: int| 0 <= j < self@.movements.len() && self@.movements[j] == x;
                assert(activities@.contains(self@.movements[j]));
            }
        }
        true
    }
}

impl Clone for TabuMv {
    fn clone(&self) -> (r: Self)
        ensures
            r@ == self@,
    {
        TabuMv { movements: clone_ids(&self.movements), tabu_time: self.tabu_time }
    }
}

} // verus!
