//! Observers of entity lifecycle events.

use crate::error::Result;
use crate::event::EntityEvent;
use vstd::prelude::*;

verus! {

/// Counter observer that tracks statistics
pub struct StatisticsObserver {
    pub spawned_count: usize,
    pub despawned_count: usize,
    pub component_additions: usize,
    pub component_removals: usize,
}

/// All four counters are zero.
pub open spec fn all_zero(s: StatisticsObserver) -> bool {
    s.spawned_count == 0 && s.despawned_count == 0 && s.component_additions == 0 && s.component_removals == 0
}

/// The counter an event of this kind adds one to; custom events are not
/// counted.
pub open spec fn counted(old: StatisticsObserver, new: StatisticsObserver, event: EntityEvent) -> bool {
    &&& new.spawned_count == old.spawned_count + if event is Spawned { 1int } else { 0int }
    &&& new.despawned_count == old.despawned_count + if event is Despawned { 1int } else { 0int }
    &&& new.component_additions == old.component_additions + if event is ComponentAdded { 1int } else { 0int }
    &&& new.component_removals == old.component_removals + if event is ComponentRemoved { 1int } else { 0int }
}

impl Default for StatisticsObserver {
    fn default() -> (s: Self)
        ensures
            all_zero(s),
    {
        Self::new()
    }
}

impl StatisticsObserver {
    pub fn new() -> (s: Self)
        ensures
            all_zero(s),
    {
        StatisticsObserver { spawned_count: 0, despawned_count: 0, component_additions: 0, component_removals: 0 }
    }

    pub fn reset(&mut self)
        ensures
            all_zero(*final(self)),
    {
        self.spawned_count = 0;
        self.despawned_count = 0;
        self.component_additions = 0;
        self.component_removals = 0;
    }

    /// Count an event by its kind. Never fails.
    pub fn on_event(&mut self, event: &EntityEvent) -> (r: Result<()>)
        requires
            old(self).spawned_count < usize::MAX,
            old(self).despawned_count < usize::MAX,
            old(self).component_additions < usize::MAX,
            old(self).component_removals < usize::MAX,
        ensures
            r is Ok,
            counted(*old(self), *final(self), *event),
    {
        match event {
            EntityEvent::Spawned(_) => self.spawned_count = self.spawned_count + 1,
            EntityEvent::Despawned(_) => self.despawned_count = self.despawned_count + 1,
            EntityEvent::ComponentAdded(_, _) => self.component_additions = self.component_additions + 1,
            EntityEvent::ComponentRemoved(_, _) => self.component_removals = self.component_removals + 1,
            EntityEvent::Custom(_, _, _) => {},
        }
        Ok(())
    }

    pub fn name(&self) -> (r: &str)
        ensures
            r@ == "StatisticsObserver"@,
    {
        "StatisticsObserver"
    }
}

} // verus!
