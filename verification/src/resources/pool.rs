//! Memory accounting for loaded resources.

use crate::error::{decimal, decimal_string, EcsError, Result};
use vstd::prelude::*;
use vstd::string::*;

verus! {

/// Message for an allocation of `size` bytes that does not fit.
pub open spec fn overflow_text(used: nat, size: nat, capacity: nat) -> Seq<char> {
    "Memory pool overflow: "@ + decimal(used) + " + "@ + decimal(size) + " > "@ + decimal(capacity)
}

fn overflow_message(used: usize, size: usize, capacity: usize) -> (r: String)
    ensures
        r@ == overflow_text(used as nat, size as nat, capacity as nat),
{
    let u = decimal_string(used);
    let s = decimal_string(size);
    let c = decimal_string(capacity);
    String::from_str("Memory pool overflow: ").concat(u.as_str()).concat(" + ").concat(s.as_str()).concat(" > ").concat(
        c.as_str(),
    )
}

fn excess_message(name: &str) -> (r: String)
    ensures
        r@ == "Deallocating more than allocated for "@ + name@,
{
    String::from_str("Deallocating more than allocated for ").concat(name)
}

fn missing_message(name: &str) -> (r: String)
    ensures
        r@ == "No allocation found for: "@ + name@,
{
    String::from_str("No allocation found for: ").concat(name)
}

/// Bytes recorded per name, the later entry winning.
pub open spec fn entries_map(s: Seq<(String, usize)>) -> Map<Seq<char>, nat>
    decreases s.len(),
{
    if s.len() == 0 {
        Map::empty()
    } else {
        entries_map(s.drop_last()).insert(s.last().0@, s.last().1 as nat)
    }
}

/// Sum of the recorded sizes.
pub open spec fn entries_total(s: Seq<(String, usize)>) -> nat
    decreases s.len(),
{
    if s.len() == 0 {
        0
    } else {
        entries_total(s.drop_last()) + s.last().1 as nat
    }
}

/// No name is recorded twice.
pub open spec fn names_distinct(s: Seq<(String, usize)>) -> bool {
    forall|i: int, j: int| 0 <= i < s.len() && 0 <= j < s.len() && i != j ==> s[i].0@ != s[j].0@
}

proof fn lemma_map_lookup(s: Seq<(String, usize)>, name: Seq<char>)
    requires
        names_distinct(s),
    ensures
        entries_map(s).contains_key(name) <==> exists|i: int| 0 <= i < s.len() && s[i].0@ == name,
        forall|i: int| 0 <= i < s.len() && s[i].0@ == name ==> entries_map(s)[name] == s[i].1 as nat,
    decreases s.len(),
{
    if s.len() > 0 {
        let p = s.drop_last();
        assert(names_distinct(p));
        lemma_map_lookup(p, name);
        if exists|i: int| 0 <= i < s.len() && s[i].0@ == name {
            let i = choose|i: int| 0 <= i < s.len() && s[i].0@ == name;
            if i < s.len() - 1 {
                assert(p[i] == s[i]);
            }
        }
        if exists|i: int| 0 <= i < p.len() && p[i].0@ == name {
            let i = choose|i: int| 0 <= i < p.len() && p[i].0@ == name;
            assert(s[i] == p[i]);
        }
    }
}

proof fn lemma_entry_le_total(s: Seq<(String, usize)>, i: int)
    requires
        0 <= i < s.len(),
    ensures
        s[i].1 <= entries_total(s),
    decreases s.len(),
{
    if i < s.len() - 1 {
        lemma_entry_le_total(s.drop_last(), i);
    }
}

proof fn lemma_update(s: Seq<(String, usize)>, i: int, e: (String, usize))
    requires
        0 <= i < s.len(),
        names_distinct(s),
        e.0@ == s[i].0@,
    ensures
        names_distinct(s.update(i, e)),
        entries_total(s.update(i, e)) + s[i].1 == entries_total(s) + e.1,
        entries_map(s.update(i, e)) == entries_map(s).insert(e.0@, e.1 as nat),
    decreases s.len(),
{
    let t = s.update(i, e);
    assert(names_distinct(t)) by {
        assert forall|a: int, b: int| 0 <= a < t.len() && 0 <= b < t.len() && a != b implies t[a].0@ != t[b].0@ by {
            assert(t[a].0@ == s[a].0@ && t[b].0@ == s[b].0@);
        }
    }
    if i == s.len() - 1 {
        assert(t.drop_last() =~= s.drop_last());
        lemma_map_lookup(s.drop_last(), e.0@);
        assert(names_distinct(s.drop_last()));
        assert(entries_map(t) =~= entries_map(s).insert(e.0@, e.1 as nat));
    } else {
        assert(t.drop_last() =~= s.drop_last().update(i, e));
        assert(names_distinct(s.drop_last()));
        lemma_update(s.drop_last(), i, e);
        assert(s.last().0@ != e.0@);
        assert(entries_map(t) =~= entries_map(s).insert(e.0@, e.1 as nat));
    }
}

proof fn lemma_remove(s: Seq<(String, usize)>, i: int)
    requires
        0 <= i < s.len(),
        names_distinct(s),
    ensures
        names_distinct(s.remove(i)),
        entries_total(s.remove(i)) + s[i].1 == entries_total(s),
        entries_map(s.remove(i)) == entries_map(s).remove(s[i].0@),
    decreases s.len(),
{
    let t = s.remove(i);
    assert(names_distinct(t)) by {
        assert forall|a: int, b: int| 0 <= a < t.len() && 0 <= b < t.len() && a != b implies t[a].0@ != t[b].0@ by {
            let sa = if a < i { a } else { a + 1 };
            let sb = if b < i { b } else { b + 1 };
            assert(t[a] == s[sa] && t[b] == s[sb]);
        }
    }
    if i == s.len() - 1 {
        assert(t =~= s.drop_last());
        lemma_map_lookup(s.drop_last(), s[i].0@);
        assert(names_distinct(s.drop_last()));
        assert forall|k: int| 0 <= k < s.drop_last().len() implies s.drop_last()[k].0@ != s[i].0@ by {
            assert(s.drop_last()[k] == s[k]);
        }
        assert(entries_map(t) =~= entries_map(s).remove(s[i].0@));
    } else {
        assert(t.drop_last() =~= s.drop_last().remove(i));
        assert(t.last() == s.last());
        assert(names_distinct(s.drop_last()));
        lemma_remove(s.drop_last(), i);
        assert(s.drop_last()[i] == s[i]);
        assert(s.last().0@ != s[i].0@);
        assert(entries_map(t) =~= entries_map(s).remove(s[i].0@));
    }
}

/// Index of the entry recorded for `name`.
fn find_entry(entries: &Vec<(String, usize)>, name: &str) -> (r: Option<usize>)
    ensures
        match r {
            Some(i) => i < entries@.len() && entries@[i as int].0@ == name@,
            None => forall|k: int| 0 <= k < entries@.len() ==> entries@[k].0@ != name@,
        },
{
    let key = name.to_string();
    proof {
        vstd::string::to_string_from_display_ensures_for_str(name, key);
    }
    let mut i: usize = 0;
    while i < entries.len()
        invariant
            i <= entries@.len(),
            key@ == name@,
            forall|k: int| 0 <= k < i ==> entries@[k].0@ != name@,
        decreases entries@.len() - i,
    {
        if entries[i].0 == key {
            return Some(i);
        }
        i = i + 1;
    }
    None
}

/// Memory pool for efficient allocation
pub struct MemoryPool {
    total_capacity: usize,
    used: usize,
    allocations: Vec<(String, usize)>,
}

impl MemoryPool {
    /// Bytes the pool may hand out.
    pub closed spec fn capacity(&self) -> nat {
        self.total_capacity as nat
    }

    /// Bytes handed out.
    pub closed spec fn used(&self) -> nat {
        self.used as nat
    }

    /// Bytes held per resource name.
    pub closed spec fn allocations(&self) -> Map<Seq<char>, nat> {
        entries_map(self.allocations@)
    }

    /// The used amount is the sum of the allocations and fits the capacity.
    pub closed spec fn wf(&self) -> bool {
        &&& self.used <= self.total_capacity
        &&& self.used as nat == entries_total(self.allocations@)
        &&& names_distinct(self.allocations@)
    }

    pub fn new(capacity: usize) -> (p: Self)
        ensures
            p.wf(),
            p.capacity() == capacity,
            p.used() == 0,
            p.allocations() == Map::<Seq<char>, nat>::empty(),
    {
        MemoryPool { total_capacity: capacity, used: 0, allocations: Vec::new() }
    }

    /// Allocate memory for a resource
    pub fn allocate(&mut self, name: &str, size: usize) -> (r: Result<()>)
        requires
            old(self).wf(),
            old(self).used() + size <= usize::MAX,
        ensures
            final(self).wf(),
            final(self).capacity() == old(self).capacity(),
            old(self).used() + size > old(self).capacity() ==> {
                &&& r matches Err(EcsError::ResourceMemoryOverflow(m)) && m@ == overflow_text(
                    old(self).used(),
                    size as nat,
                    old(self).capacity(),
                )
                &&& final(self).used() == old(self).used()
                &&& final(self).allocations() == old(self).allocations()
            },
            old(self).used() + size <= old(self).capacity() ==> {
                &&& r is Ok
                &&& final(self).used() == old(self).used() + size
                &&& final(self).allocations() == old(self).allocations().insert(
                    name@,
                    ((if old(self).allocations().contains_key(name@) {
                        old(self).allocations()[name@]
                    } else {
                        0
                    }) + size) as nat,
                )
            },
    {
        if self.used + size > self.total_capacity {
            return Err(EcsError::ResourceMemoryOverflow(overflow_message(self.used, size, self.total_capacity)));
        }
        proof {
            lemma_map_lookup(self.allocations@, name@);
        }
        match find_entry(&self.allocations, name) {
            Some(i) => {
                let ghost s = self.allocations@;
                proof {
                    lemma_entry_le_total(s, i as int);
                }
                let entry = self.allocations.remove(i);
                let grown = (entry.0, entry.1 + size);
                self.allocations.insert(i, grown);
                proof {
                    assert(self.allocations@ =~= s.update(i as int, grown));
                    lemma_update(s, i as int, grown);
                }
            },
            None => {
                let ghost s = self.allocations@;
                let key = name.to_string();
                proof {
                    vstd::string::to_string_from_display_ensures_for_str(name, key);
                }
                self.allocations.push((key, size));
                proof {
                    let t = self.allocations@;
                    assert(t.drop_last() =~= s);
                    assert(names_distinct(t)) by {
                        assert forall|a: int, b: int| 0 <= a < t.len() && 0 <= b < t.len() && a != b implies t[a].0@ != t[b].0@ by {
                            if a < s.len() {
                                assert(t[a] == s[a]);
                            }
                            if b < s.len() {
                                assert(t[b] == s[b]);
                            }
                        }
                    }
                }
            },
        }
        self.used = self.used + size;
        Ok(())
    }

    /// Deallocate memory
    pub fn deallocate(&mut self, name: &str, size: usize) -> (r: Result<()>)
        requires
            old(self).wf(),
        ensures
            final(self).wf(),
            final(self).capacity() == old(self).capacity(),
            !old(self).allocations().contains_key(name@) ==> {
                &&& r matches Err(EcsError::ResourceNotFound(m)) && m@ == "No allocation found for: "@ + name@
                &&& final(self).used() == old(self).used()
                &&& final(self).allocations() == old(self).allocations()
            },
            old(self).allocations().contains_key(name@) && old(self).allocations()[name@] < size ==> {
                &&& r matches Err(EcsError::ResourceDeallocError(m)) && m@ == "Deallocating more than allocated for "@
                    + name@
                &&& final(self).used() == old(self).used()
                &&& final(self).allocations() == old(self).allocations()
            },
            old(self).allocations().contains_key(name@) && old(self).allocations()[name@] >= size ==> {
                &&& r is Ok
                &&& final(self).used() == old(self).used() - size
                &&& final(self).allocations() == if old(self).allocations()[name@] == size {
                    old(self).allocations().remove(name@)
                } else {
                    old(self).allocations().insert(name@, (old(self).allocations()[name@] - size) as nat)
                }
            },
    {
        proof {
            lemma_map_lookup(self.allocations@, name@);
        }
        match find_entry(&self.allocations, name) {
            Some(i) => {
                let allocated = self.allocations[i].1;
                if allocated >= size {
                    let ghost s = self.allocations@;
                    proof {
                        lemma_entry_le_total(s, i as int);
                    }
                    let entry = self.allocations.remove(i);
                    let shrunk = (entry.0, entry.1 - size);
                    self.used = self.used - size;
                    if shrunk.1 == 0 {
                        proof {
                            assert(self.allocations@ =~= s.remove(i as int));
                            lemma_remove(s, i as int);
                        }
                    } else {
                        self.allocations.insert(i, shrunk);
                        proof {
                            assert(self.allocations@ =~= s.update(i as int, shrunk));
                            lemma_update(s, i as int, shrunk);
                        }
                    }
                    Ok(())
                } else {
                    Err(EcsError::ResourceDeallocError(excess_message(name)))
                }
            },
            None => Err(EcsError::ResourceNotFound(missing_message(name))),
        }
    }

    /// Get available memory
    pub fn get_available(&self) -> (r: usize)
        requires
            self.wf(),
        ensures
            r == self.capacity() - self.used(),
    {
        self.total_capacity - self.used
    }

    /// Get used memory
    pub fn get_used(&self) -> (r: usize)
        ensures
            r == self.used(),
    {
        self.used
    }

    /// Get memory used by specific resource
    pub fn get_allocation(&self, name: &str) -> (r: usize)
        requires
            self.wf(),
        ensures
            r == if self.allocations().contains_key(name@) {
                self.allocations()[name@]
            } else {
                0
            },
    {
        proof {
            lemma_map_lookup(self.allocations@, name@);
        }
        match find_entry(&self.allocations, name) {
            Some(i) => self.allocations[i].1,
            None => 0,
        }
    }

    /// Clear all allocations
    pub fn clear(&mut self)
        ensures
            final(self).wf(),
            final(self).capacity() == old(self).capacity(),
            final(self).used() == 0,
            final(self).allocations() == Map::<Seq<char>, nat>::empty(),
    {
        self.used = 0;
        self.allocations.clear();
    }
}

/// Allocating `size` bytes under a name and then deallocating the same
/// amount gives back the allocations there were, unless the name was
/// already recorded with zero bytes (it is then dropped).
pub proof fn lemma_allocate_then_deallocate(allocs: Map<Seq<char>, nat>, name: Seq<char>, size: nat)
    requires
        allocs.contains_key(name) ==> allocs[name] > 0,
    ensures
        ({
            let prev = if allocs.contains_key(name) {
                allocs[name]
            } else {
                0
            };
            let grown = allocs.insert(name, prev + size);
            let amount = grown[name];
            (if amount == size {
                grown.remove(name)
            } else {
                grown.insert(name, (amount - size) as nat)
            }) == allocs
        }),
{
    let prev = if allocs.contains_key(name) {
        allocs[name]
    } else {
        0
    };
    let grown = allocs.insert(name, prev + size);
    if allocs.contains_key(name) {
        assert(grown.insert(name, prev) =~= allocs);
    } else {
        assert(grown.remove(name) =~= allocs);
    }
}

} // verus!
