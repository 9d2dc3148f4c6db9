//! Hierarchy components of the built-in transform module.

use crate::entity::EntityId;
use vstd::prelude::*;

verus! {

/// Parent component for hierarchy
#[derive(Clone, Copy, Debug)]
pub struct Parent(pub EntityId);

/// Children component for hierarchy
#[derive(Clone, Debug)]
pub struct Children {
    pub entities: Vec<EntityId>,
}

impl Default for Children {
    fn default() -> (c: Self)
        ensures
            c.entities@ == Seq::<EntityId>::empty(),
    {
        Children { entities: Vec::new() }
    }
}

impl Children {
    pub fn new() -> (c: Self)
        ensures
            c.entities@ == Seq::<EntityId>::empty(),
    {
        Self::default()
    }

    pub fn with_children(entities: Vec<EntityId>) -> (c: Self)
        ensures
            c.entities@ == entities@,
    {
        Children { entities }
    }

    /// Append `entity` unless it is already listed.
    pub fn add(&mut self, entity: EntityId)
        ensures
            final(self).entities@ == if old(self).entities@.contains(entity) {
                old(self).entities@
            } else {
                old(self).entities@.push(entity)
            },
    {
        let mut i: usize = 0;
        while i < self.entities.len()
            invariant
                i <= self.entities@.len(),
                forall|k: int| 0 <= k < i ==> self.entities@[k] != entity,
            decreases self.entities@.len() - i,
        {
            if self.entities[i].same(&entity) {
                return;
            }
            i = i + 1;
        }
        self.entities.push(entity);
    }

    /// Remove every occurrence of `entity`, keeping the others in order.
    pub fn remove(&mut self, entity: EntityId)
        ensures
            final(self).entities@ == old(self).entities@.filter(|e: EntityId| e != entity),
    {
        let ghost orig = self.entities@;
        let mut kept: Vec<EntityId> = Vec::new();
        let mut i: usize = 0;
        while i < self.entities.len()
            invariant
                self.entities@ == orig,
                i <= orig.len(),
                kept@ == orig.subrange(0, i as int).filter(|e: EntityId| e != entity),
            decreases orig.len() - i,
        {
            let e = self.entities[i];
            proof {
                assert(orig.subrange(0, i + 1).drop_last() =~= orig.subrange(0, i as int));
                reveal_with_fuel(Seq::filter, 1);
            }
            if !e.same(&entity) {
                kept.push(e);
            }
            i = i + 1;
        }
        proof {
            assert(orig.subrange(0, orig.len() as int) =~= orig);
        }
        self.entities = kept;
    }
}

} // verus!
