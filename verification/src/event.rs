//! Entity lifecycle events and a bounded queue for deferred processing.

use crate::entity::EntityId;
use std::any::TypeId;
use std::collections::VecDeque;
use vstd::prelude::*;

verus! {

/// Entity lifecycle events that trigger observers
#[derive(Clone, Debug)]
pub enum EntityEvent {
    /// Entity was spawned (created)
    Spawned(EntityId),
    /// Entity was despawned (destroyed)
    Despawned(EntityId),
    /// Component was added to entity
    ComponentAdded(EntityId, TypeId),
    /// Component was removed from entity
    ComponentRemoved(EntityId, TypeId),
    /// Custom event (name, entity_id, data)
    Custom(String, EntityId, Vec<u8>),
}

/// The entity an event is about.
pub open spec fn event_entity(e: EntityEvent) -> EntityId {
    match e {
        EntityEvent::Spawned(id) => id,
        EntityEvent::Despawned(id) => id,
        EntityEvent::ComponentAdded(id, _) => id,
        EntityEvent::ComponentRemoved(id, _) => id,
        EntityEvent::Custom(_, id, _) => id,
    }
}

/// The name of an event's kind; a custom event is named by its own name.
pub open spec fn event_type_name(e: EntityEvent) -> Seq<char> {
    match e {
        EntityEvent::Spawned(_) => "Spawned"@,
        EntityEvent::Despawned(_) => "Despawned"@,
        EntityEvent::ComponentAdded(_, _) => "ComponentAdded"@,
        EntityEvent::ComponentRemoved(_, _) => "ComponentRemoved"@,
        EntityEvent::Custom(name, _, _) => name@,
    }
}

impl EntityEvent {
    /// Get the entity involved in this event
    pub fn entity_id(&self) -> (id: EntityId)
        ensures
            id == event_entity(*self),
    {
        match self {
            EntityEvent::Spawned(id) => *id,
            EntityEvent::Despawned(id) => *id,
            EntityEvent::ComponentAdded(id, _) => *id,
            EntityEvent::ComponentRemoved(id, _) => *id,
            EntityEvent::Custom(_, id, _) => *id,
        }
    }

    /// Get event type name for debugging
    pub fn event_type(&self) -> (name: &str)
        ensures
            name@ == event_type_name(*self),
    {
        match self {
            EntityEvent::Spawned(_) => "Spawned",
            EntityEvent::Despawned(_) => "Despawned",
            EntityEvent::ComponentAdded(_, _) => "ComponentAdded",
            EntityEvent::ComponentRemoved(_, _) => "ComponentRemoved",
            EntityEvent::Custom(name, _, _) => name.as_str(),
        }
    }
}

/// Event queue for deferred event processing
pub struct EventQueue {
    events: VecDeque<EntityEvent>,
    capacity: usize,
}

impl EventQueue {
    /// Pending events, oldest first.
    pub closed spec fn pending(&self) -> Seq<EntityEvent> {
        self.events@
    }

    /// Most events the queue keeps.
    pub closed spec fn spec_capacity(&self) -> nat {
        self.capacity as nat
    }

    /// Create new event queue
    pub fn new() -> (q: Self)
        ensures
            q.pending() == Seq::<EntityEvent>::empty(),
            q.spec_capacity() == 1024,
    {
        EventQueue { events: VecDeque::new(), capacity: 1024 }
    }

    /// Create with specific capacity
    pub fn with_capacity(capacity: usize) -> (q: Self)
        ensures
            q.pending() == Seq::<EntityEvent>::empty(),
            q.spec_capacity() == capacity,
    {
        EventQueue { events: VecDeque::with_capacity(capacity), capacity }
    }

    /// Add event to queue; an event that finds the queue full is dropped.
    pub fn push(&mut self, event: EntityEvent)
        ensures
            final(self).spec_capacity() == old(self).spec_capacity(),
            final(self).pending() == if old(self).pending().len() < old(self).spec_capacity() {
                old(self).pending().push(event)
            } else {
                old(self).pending()
            },
    {
        if self.events.len() < self.capacity {
            self.events.push_back(event);
        }
    }

    /// Get next event
    pub fn pop(&mut self) -> (e: Option<EntityEvent>)
        ensures
            final(self).spec_capacity() == old(self).spec_capacity(),
            old(self).pending().len() == 0 ==> e is None && final(self).pending() == old(self).pending(),
            old(self).pending().len() > 0 ==> e == Some(old(self).pending()[0]) && final(self).pending()
                == old(self).pending().drop_first(),
    {
        self.events.pop_front()
    }

    /// Check if queue is empty
    pub fn is_empty(&self) -> (r: bool)
        ensures
            r == (self.pending().len() == 0),
    {
        self.events.len() == 0
    }

    /// Clear all events
    pub fn clear(&mut self)
        ensures
            final(self).spec_capacity() == old(self).spec_capacity(),
            final(self).pending() == Seq::<EntityEvent>::empty(),
    {
        self.events.clear();
    }

    /// Get number of pending events
    pub fn len(&self) -> (r: usize)
        ensures
            r == self.pending().len(),
    {
        self.events.len()
    }
}

impl Default for EventQueue {
    fn default() -> (q: Self)
        ensures
            q.pending() == Seq::<EntityEvent>::empty(),
            q.spec_capacity() == 1024,
    {
        Self::new()
    }
}

/// What a queue with room for `capacity` events holds after `events` are
/// pushed one after another onto `pending`: each is kept while there is room.
pub open spec fn after_pushing(pending: Seq<EntityEvent>, capacity: nat, events: Seq<EntityEvent>) -> Seq<EntityEvent>
    decreases events.len(),
{
    if events.len() == 0 {
        pending
    } else {
        let before = after_pushing(pending, capacity, events.drop_last());
        if before.len() < capacity {
            before.push(events.last())
        } else {
            before
        }
    }
}

/// Events come out of a queue in the order they went in: pushing events onto
/// an empty queue keeps the first `capacity` of them, in order, so successive
/// pops return them first to last and then nothing.
pub proof fn lemma_queue_fifo(capacity: nat, events: Seq<EntityEvent>)
    ensures
        after_pushing(Seq::empty(), capacity, events) == events.take(
            if events.len() <= capacity { events.len() as int } else { capacity as int },
        ),
    decreases events.len(),
{
    if events.len() > 0 {
        let p = events.drop_last();
        lemma_queue_fifo(capacity, p);
        if p.len() < capacity {
            assert(events.take(events.len() as int) =~= p.take(p.len() as int).push(events.last()));
        } else {
            assert(p.take(capacity as int) =~= events.take(capacity as int));
        }
    }
}

} // verus!
