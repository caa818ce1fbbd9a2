//! Renewable resources.

use vstd::prelude::*;
use core::cmp::Ordering;
use crate::model::ResourceView;

verus! {

/// A renewable resource: so many units of it are at hand at every instant.
#[derive(Debug)]
pub struct RnResource {
    pub id: u32,
    pub name: String,
    pub capacity: u32,
}

impl View for RnResource {
    type V = ResourceView;

    open spec fn view(&self) -> ResourceView {
        ResourceView { id: self.id, name: self.name@, capacity: self.capacity }
    }
}

impl RnResource {
    /// A resource with these fields.
    pub fn new(id: u32, name: String, capacity: u32) -> (r: RnResource)
        ensures
            r.id == id,
            r.name == name,
            r.capacity == capacity,
    {
        RnResource { id, name, capacity }
    }
}

impl Clone for RnResource {
    fn clone(&self) -> (r: Self)
        ensures
            r == *self,
    {
        RnResource { id: self.id, name: self.name.clone(), capacity: self.capacity }
    }
}

/// Two resources are the same resource when they carry the same identity.
impl PartialEq for RnResource {
    fn eq(&self, other: &Self) -> (r: bool) {
        self.id == other.id
    }
}

impl vstd::std_specs::cmp::PartialEqSpecImpl for RnResource {
    open spec fn obeys_eq_spec() -> bool {
        true
    }

    open spec fn eq_spec(&self, other: &Self) -> bool {
        self.id == other.id
    }
}

impl Eq for RnResource {}

/// Resources are ordered by their identities.
impl PartialOrd for RnResource {
    fn partial_cmp(&self, other: &Self) -> (r: Option<Ordering>) {
        Some(self.cmp(other))
    }
}

impl vstd::std_specs::cmp::PartialOrdSpecImpl for RnResource {
    open spec fn obeys_partial_cmp_spec() -> bool {
        true
    }

    open spec fn partial_cmp_spec(&self, other: &Self) -> Option<Ordering> {
        Some(crate::model::order_of(self.id, other.id))
    }
}

impl RnResource {
    /// How `self` stands to `other` in the order of identities.
    pub fn cmp(&self, other: &Self) -> (r: Ordering)
        ensures
            r == crate::model::order_of(self.id, other.id),
    {
        if self.id == other.id {
            return Ordering::Equal;
        } else if self.id < other.id {
            return Ordering::Less;
        }
        return Ordering::Greater;
    }
}

} // verus!
