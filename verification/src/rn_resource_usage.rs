//! How much of a renewable resource an activity holds while it runs.

use vstd::prelude::*;
use crate::model::UsageView;
use crate::rn_resource::RnResource;

verus! {

/// The units of one renewable resource that an activity holds while it runs.
#[derive(Debug)]
pub struct RnResourceUsage {
    pub resource: RnResource,
    pub usage: u32,
}

impl View for RnResourceUsage {
    type V = UsageView;

    open spec fn view(&self) -> UsageView {
        UsageView { resource: self.resource@, usage: self.usage }
    }
}

impl RnResourceUsage {
    /// A usage of `usage` units of `resource`.
    pub fn new(resource: RnResource, usage: u32) -> (r: RnResourceUsage)
        ensures
            r.resource == resource,
            r.usage == usage,
    {
        RnResourceUsage { resource, usage }
    }
}

impl Clone for RnResourceUsage {
    fn clone(&self) -> (r: Self)
        ensures
            r == *self,
    {
        RnResourceUsage { resource: self.resource.clone(), usage: self.usage }
    }
}

} // verus!
