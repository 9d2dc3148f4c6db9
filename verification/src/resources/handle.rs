//! Typed resource handles and generation tracking for reused IDs.

use crate::resources::Resource;
use std::marker::PhantomData;
use vstd::prelude::*;

verus! {

/// Type-safe handle to a resource
#[derive(Copy, Debug, PartialEq, Eq, Hash)]
pub struct Handle<T: Resource + ?Sized> {
    id: u64,
    generation: u32,
    _phantom: PhantomData<T>,
}

impl<T: Resource + ?Sized> Clone for Handle<T> {
    fn clone(&self) -> (h: Self)
        ensures
            h == *self,
    {
        Handle { id: self.id, generation: self.generation, _phantom: PhantomData }
    }
}

impl<T: Resource + ?Sized> Handle<T> {
    /// The handle's ID.
    pub closed spec fn spec_id(&self) -> u64 {
        self.id
    }

    /// The handle's generation.
    pub closed spec fn spec_generation(&self) -> u32 {
        self.generation
    }

    /// Create a new handle
    pub fn new(id: u64, generation: u32) -> (h: Self)
        ensures
            h.spec_id() == id,
            h.spec_generation() == generation,
    {
        Handle { id, generation, _phantom: PhantomData }
    }

    /// Get the handle's ID
    pub fn id(&self) -> (r: u64)
        ensures
            r == self.spec_id(),
    {
        self.id
    }

    /// Get the handle's generation (for version tracking)
    pub fn generation(&self) -> (r: u32)
        ensures
            r == self.spec_generation(),
    {
        self.generation
    }

    /// Check if handle is valid (generation matches)
    pub fn is_valid_generation(&self, current_generation: u32) -> (r: bool)
        ensures
            r == (self.spec_generation() == current_generation),
    {
        self.generation == current_generation
    }
}

/// Generation tracking for reused IDs
pub struct GenerationTracker {
    generations: Vec<u32>,
    available_ids: Vec<u64>,
}

impl GenerationTracker {
    /// Generation of every ID slot.
    pub closed spec fn generation_seq(&self) -> Seq<u32> {
        self.generations@
    }

    /// Free IDs; the last one is handed out next.
    pub closed spec fn free_ids(&self) -> Seq<u64> {
        self.available_ids@
    }

    /// Generation recorded for `id` (0 for an ID outside the tracked slots).
    pub open spec fn generation_of(&self, id: u64) -> u32 {
        if (id as usize) < self.generation_seq().len() {
            self.generation_seq()[(id as usize) as int]
        } else {
            0
        }
    }

    /// Track `capacity` IDs, all free, handing out 0 first.
    pub fn new(capacity: usize) -> (t: Self)
        ensures
            t.generation_seq().len() == capacity,
            forall|i: int| 0 <= i < capacity ==> #[trigger] t.generation_seq()[i] == 0,
            t.free_ids().len() == capacity,
            forall|i: int| 0 <= i < capacity ==> #[trigger] t.free_ids()[i] == capacity - 1 - i,
    {
        let mut available: Vec<u64> = Vec::new();
        let cap = capacity as u64;
        let mut i: u64 = 0;
        while i < cap
            invariant
                cap == capacity as u64,
                i <= cap,
                available@.len() == i,
                forall|k: int| 0 <= k < i ==> #[trigger] available@[k] == k,
            decreases cap - i,
        {
            available.push(i);
            i = i + 1;
        }
        let mut reversed: Vec<u64> = Vec::new();
        let mut j: usize = available.len();
        while j > 0
            invariant
                j <= available@.len(),
                reversed@.len() == available@.len() - j,
                forall|k: int| 0 <= k < reversed@.len() ==> #[trigger] reversed@[k] == available@[available@.len() - 1 - k],
            decreases j,
        {
            j = j - 1;
            reversed.push(available[j]);
        }
        let mut generations: Vec<u32> = Vec::new();
        while generations.len() < capacity
            invariant
                generations@.len() <= capacity,
                forall|k: int| 0 <= k < generations@.len() ==> #[trigger] generations@[k] == 0,
            decreases capacity - generations.len(),
        {
            generations.push(0);
        }
        proof {
            assert(capacity as u64 as int == capacity) by {
                assert(capacity <= u64::MAX);
            }
        }
        GenerationTracker { generations, available_ids: reversed }
    }

    /// Hand out the next free ID, or 0 when none is free.
    pub fn allocate(&mut self) -> (id: u64)
        ensures
            final(self).generation_seq() == old(self).generation_seq(),
            old(self).free_ids().len() > 0 ==> id == old(self).free_ids().last() && final(self).free_ids()
                == old(self).free_ids().drop_last(),
            old(self).free_ids().len() == 0 ==> id == 0 && final(self).free_ids() == old(self).free_ids(),
    {
        match self.available_ids.pop() {
            Some(id) => id,
            None => 0,
        }
    }

    /// Retire `id`: bump its generation and make it free again. IDs outside
    /// the tracked slots are ignored.
    pub fn deallocate(&mut self, id: u64)
        requires
            (id as usize) < old(self).generation_seq().len() ==> old(self).generation_seq()[(id as usize) as int] < u32::MAX,
        ensures
            (id as usize) < old(self).generation_seq().len() ==> {
                &&& final(self).generation_seq() == old(self).generation_seq().update(
                    (id as usize) as int,
                    (old(self).generation_seq()[(id as usize) as int] + 1) as u32,
                )
                &&& final(self).free_ids() == old(self).free_ids().push(id)
            },
            (id as usize) >= old(self).generation_seq().len() ==> final(self).generation_seq() == old(self).generation_seq()
                && final(self).free_ids() == old(self).free_ids(),
    {
        let idx = id as usize;
        if idx < self.generations.len() {
            let g = self.generations[idx];
            self.generations.set(idx, g + 1);
            self.available_ids.push(id);
        }
    }

    /// Generation of `id` (0 for an ID outside the tracked slots).
    pub fn get_generation(&self, id: u64) -> (g: u32)
        ensures
            g == self.generation_of(id),
    {
        let idx = id as usize;
        if idx < self.generations.len() {
            self.generations[idx]
        } else {
            0
        }
    }
}

/// Deallocating an ID advances its generation by one, so handles made before
/// no longer validate.
pub proof fn lemma_deallocate_invalidates(before: GenerationTracker, after: GenerationTracker, id: u64)
    requires
        (id as usize) < before.generation_seq().len(),
        after.generation_seq() == before.generation_seq().update(
            (id as usize) as int,
            (before.generation_seq()[(id as usize) as int] + 1) as u32,
        ),
        before.generation_seq()[(id as usize) as int] < u32::MAX,
    ensures
        after.generation_of(id) == before.generation_of(id) + 1,
        after.generation_of(id) != before.generation_of(id),
{
}

/// What `allocate` returns for a list of free IDs: the last one, or 0 when
/// none is free.
pub open spec fn next_id(free: Seq<u64>) -> u64 {
    if free.len() > 0 {
        free.last()
    } else {
        0
    }
}

/// A fresh tracker of `capacity` IDs hands them out in increasing order:
/// after `k` allocations the next one returns `k`; once all are out it
/// returns 0. An ID freed by `deallocate` is the next one handed out.
pub proof fn lemma_allocation_order(capacity: nat, k: nat, free: Seq<u64>, freed: u64)
    requires
        free.len() == capacity,
        forall|i: int| 0 <= i < capacity ==> #[trigger] free[i] == capacity - 1 - i,
    ensures
        k < capacity ==> next_id(free.take(capacity - k)) == k,
        k >= capacity ==> next_id(free.take(0)) == 0,
        next_id(free.take(if k < capacity { capacity - k } else { 0 }).push(freed)) == freed,
{
    if k < capacity {
        assert(free.take(capacity - k).last() == free[capacity - k - 1]);
    }
}

} // verus!
