//! Parent/child relationship components.

use crate::entity::EntityId;
use vstd::prelude::*;
use vstd::std_specs::iter::IteratorSpec;

verus! {

/// Parent relationship component
#[derive(Clone, Copy, Debug, PartialEq, Eq)]
pub struct Parent(pub EntityId);

impl Parent {
    pub fn new(parent_id: EntityId) -> (p: Self)
        ensures
            p.0 == parent_id,
    {
        Parent(parent_id)
    }

    pub fn entity_id(&self) -> (id: EntityId)
        ensures
            id == self.0,
    {
        self.0
    }
}

/// Index of the first occurrence of `child` in `v`, if any.
fn position_of(v: &Vec<EntityId>, child: EntityId) -> (r: Option<usize>)
    ensures
        match r {
            Some(i) => i < v@.len() && v@[i as int] == child && forall|k: int|
                0 <= k < i ==> v@[k] != child,
            None => !v@.contains(child),
        },
{
    let mut i: usize = 0;
    while i < v.len()
        invariant
            i <= v@.len(),
            forall|k: int| 0 <= k < i ==> v@[k] != child,
        decreases v@.len() - i,
    {
        if v[i].same(&child) {
            return Some(i);
        }
        i = i + 1;
    }
    None
}

/// Children relationship component
#[derive(Clone, Debug, PartialEq, Eq)]
pub struct Children {
    children: Vec<EntityId>,
}

impl View for Children {
    type V = Seq<EntityId>;

    closed spec fn view(&self) -> Seq<EntityId> {
        self.children@
    }
}

impl Children {
    /// No child is listed twice.
    pub closed spec fn wf(&self) -> bool {
        self.children@.no_duplicates()
    }

    pub fn new() -> (c: Self)
        ensures
            c.wf(),
            c@ == Seq::<EntityId>::empty(),
    {
        Children { children: Vec::new() }
    }

    /// Append `child` unless it is already listed.
    pub fn add_child(&mut self, child: EntityId)
        requires
            old(self).wf(),
        ensures
            final(self).wf(),
            final(self)@ == if old(self)@.contains(child) {
                old(self)@
            } else {
                old(self)@.push(child)
            },
    {
        if position_of(&self.children, child).is_none() {
            self.children.push(child);
            proof {
                let s = self.children@;
                assert forall|i: int, j: int| 0 <= i < s.len() && 0 <= j < s.len() && i != j implies s[i] != s[j] by {
                    if i == s.len() - 1 {
                        assert(old(self).children@[j] == s[j]);
                    } else if j == s.len() - 1 {
                        assert(old(self).children@[i] == s[i]);
                    } else {
                        assert(old(self).children@[i] == s[i]);
                        assert(old(self).children@[j] == s[j]);
                    }
                }
            }
        }
    }

    /// Remove the first occurrence of `child`; report whether there was one.
    pub fn remove_child(&mut self, child: EntityId) -> (removed: bool)
        requires
            old(self).wf(),
        ensures
            final(self).wf(),
            removed == old(self)@.contains(child),
            removed ==> final(self)@ == old(self)@.remove(old(self)@.index_of(child)),
            !removed ==> final(self)@ == old(self)@,
            !final(self)@.contains(child),
    {
        match position_of(&self.children, child) {
            Some(pos) => {
                let ghost s = self.children@;
                proof {
                    assert(s.contains(child));
                    assert(s.index_of(child) == pos as int) by {
                        s.index_of_first_ensures(child);
                        if s.index_of(child) != pos as int {
                            assert(s[s.index_of(child)] == s[pos as int]);
                        }
                    }
                }
                self.children.remove(pos);
                proof {
                    let t = self.children@;
                    assert(t =~= s.remove(pos as int));
                    assert forall|i: int, j: int| 0 <= i < t.len() && 0 <= j < t.len() && i != j implies t[i] != t[j] by {
                        let si = if i < pos { i } else { i + 1 };
                        let sj = if j < pos { j } else { j + 1 };
                        assert(t[i] == s[si] && t[j] == s[sj]);
                    }
                    assert forall|k: int| 0 <= k < t.len() implies t[k] != child by {
                        let sk = if k < pos { k } else { k + 1 };
                        assert(t[k] == s[sk]);
                    }
                }
                true
            },
            None => false,
        }
    }

    pub fn contains(&self, child: EntityId) -> (r: bool)
        ensures
            r == self@.contains(child),
    {
        position_of(&self.children, child).is_some()
    }

    /// Iterator over the children, in the order they were added.
    pub fn iter(&self) -> (it: std::slice::Iter<'_, EntityId>)
        ensures
            it.remaining() == self@.map_values(|e: EntityId| &e),
    {
        let sl = self.children.as_slice();
        let it = sl.iter();
        proof {
            vstd::std_specs::slice::axiom_spec_slice_iter(sl);
            assert(sl@.as_ref() =~= self@.map_values(|e: EntityId| &e));
        }
        it
    }

    pub fn len(&self) -> (r: usize)
        ensures
            r == self@.len(),
    {
        self.children.len()
    }

    pub fn is_empty(&self) -> (r: bool)
        ensures
            r == (self@.len() == 0),
    {
        self.children.is_empty()
    }

    pub fn clear(&mut self)
        ensures
            final(self).wf(),
            final(self)@ == Seq::<EntityId>::empty(),
    {
        self.children.clear();
    }

    /// A copy of the children, in order.
    pub fn get_children(&self) -> (v: Vec<EntityId>)
        ensures
            v@ == self@,
    {
        let mut v: Vec<EntityId> = Vec::new();
        let mut i: usize = 0;
        while i < self.children.len()
            invariant
                i <= self.children@.len(),
                v@ == self.children@.subrange(0, i as int),
            decreases self.children@.len() - i,
        {
            v.push(self.children[i]);
            i = i + 1;
        }
        proof {
            assert(self.children@.subrange(0, self.children@.len() as int) =~= self.children@);
        }
        v
    }
}

/// A child list made by `new`, `add_child`, `remove_child` and `clear` never
/// names a child twice, so its length is the number of distinct children.
pub proof fn lemma_children_distinct(c: Children)
    requires
        c.wf(),
    ensures
        c@.no_duplicates(),
        c@.to_set().len() == c@.len(),
{
    c.children@.unique_seq_to_set();
}

impl Default for Children {
    fn default() -> (c: Self)
        ensures
            c.wf(),
            c@ == Seq::<EntityId>::empty(),
    {
        Self::new()
    }
}

/// Tracks if transform changed (for dirty propagation)
#[derive(Clone, Copy, Debug)]
pub struct TransformChanged {
    pub changed: bool,
}

impl TransformChanged {
    pub fn new(changed: bool) -> (t: Self)
        ensures
            t.changed == changed,
    {
        TransformChanged { changed }
    }

    pub fn mark_changed(&mut self)
        ensures
            final(self).changed,
    {
        self.changed = true;
    }

    pub fn clear(&mut self)
        ensures
            !final(self).changed,
    {
        self.changed = false;
    }

    pub fn is_changed(&self) -> (r: bool)
        ensures
            r == self.changed,
    {
        self.changed
    }
}

impl Default for TransformChanged {
    fn default() -> (t: Self)
        ensures
            !t.changed,
    {
        Self::new(false)
    }
}

} // verus!
