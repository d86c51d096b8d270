//! The regions of a compositor

use super::{RectangleKind, RegionAttributes};
use crate::utils::Rectangle;
use std::collections::HashMap;
use vstd::prelude::*;

verus! {

broadcast use vstd::std_specs::hash::group_hash_axioms;

/// Identifier of a region, unique among the regions of all clients
pub type RegionId = u64;

/// The regions of a compositor
pub struct Regions {
    regions: HashMap<RegionId, RegionAttributes>,
}

impl View for Regions {
    type V = Map<RegionId, Seq<(RectangleKind, Rectangle)>>;

    closed spec fn view(&self) -> Map<RegionId, Seq<(RectangleKind, Rectangle)>> {
        self.regions@.map_values(|attributes: RegionAttributes| attributes.rects@)
    }
}

impl Regions {
    /// Creates a set of regions that holds none yet
    pub fn new() -> (regions: Regions)
        ensures
            regions@ == Map::<RegionId, Seq<(RectangleKind, Rectangle)>>::empty(),
    {
        let regions = Regions { regions: HashMap::new() };
        assert(regions@ == Map::<RegionId, Seq<(RectangleKind, Rectangle)>>::empty());
        regions
    }

    /// Whether the region is managed by the compositor
    pub fn is_managed(&self, region: &RegionId) -> (managed: bool)
        ensures
            managed == self@.contains_key(*region),
    {
        self.regions.contains_key(region)
    }

    /// Starts managing a region, or replaces the contents of one that is managed already
    pub fn manage(&mut self, region: RegionId, attributes: RegionAttributes)
        ensures
            final(self)@ == old(self)@.insert(region, attributes.rects@),
    {
        self.regions.insert(region, attributes);
        assert(self@ == old(self)@.insert(region, attributes.rects@));
    }

    /// The contents of a region
    pub fn get(&self, region: &RegionId) -> (attributes: RegionAttributes)
        requires
            self@.contains_key(*region),
        ensures
            attributes.rects@ == self@[*region],
    {
        self.regions.get(region).unwrap().clone()
    }
}

} // verus!
