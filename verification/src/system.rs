//! Component identifiers and the read/write access a system declares.

use std::any::TypeId;
use vstd::prelude::*;

verus! {

#[verifier::external_type_specification]
#[verifier::external_body]
pub struct ExTypeId(TypeId);

/// `TypeId` is `Copy`; its `clone` returns the value itself.
pub assume_specification[ <TypeId as Clone>::clone ](id: &TypeId) -> (r: TypeId)
    ensures
        r == *id,
;

/// Calls `TypeId::of::<T>()`. Nothing is claimed of the value beyond its type:
/// which identifier a type receives is decided by the compiler.
#[verifier::external_body]
pub(crate) fn type_id_of<T: ?Sized + 'static>() -> TypeId {
    TypeId::of::<T>()
}

/// Compares two `TypeId`s with `==`. `TypeId`'s equality compares the
/// identifier's stored value field by field, so it holds exactly when the two
/// values are the same value.
#[verifier::external_body]
pub(crate) fn type_id_eq(a: &TypeId, b: &TypeId) -> (r: bool)
    ensures
        r == (*a == *b),
{
    *a == *b
}

/// System ID
#[derive(Debug, Clone, Copy, PartialEq, Eq, Hash, Structural)]
pub struct SystemId(pub u32);

/// Component ID wrapper
#[derive(Debug, Clone, Copy, PartialEq, Eq, Hash)]
pub struct ComponentId(pub TypeId);

impl ComponentId {
    /// The identifier of component type `T`.
    pub fn of<T: 'static>() -> Self {
        ComponentId(type_id_of::<T>())
    }

    /// Whether two identifiers name the same component type.
    pub fn same(&self, other: &ComponentId) -> (r: bool)
        ensures
            r == (*self == *other),
    {
        type_id_eq(&self.0, &other.0)
    }
}

impl From<TypeId> for ComponentId {
    fn from(id: TypeId) -> (r: Self)
        ensures
            r == ComponentId(id),
    {
        ComponentId(id)
    }
}

impl vstd::std_specs::convert::FromSpecImpl<TypeId> for ComponentId {
    open spec fn obeys_from_spec() -> bool {
        true
    }

    open spec fn from_spec(v: TypeId) -> ComponentId {
        ComponentId(v)
    }
}

/// `base` followed by each element of `extra` that is not yet present,
/// in the order of `extra`.
pub open spec fn append_absent(base: Seq<ComponentId>, extra: Seq<ComponentId>) -> Seq<ComponentId>
    decreases extra.len(),
{
    if extra.len() == 0 {
        base
    } else {
        let prefix = append_absent(base, extra.drop_last());
        if prefix.contains(extra.last()) {
            prefix
        } else {
            prefix.push(extra.last())
        }
    }
}

/// Two declared accesses conflict when one writes a component that the other
/// reads or writes.
pub open spec fn accesses_conflict(a: SystemAccess, b: SystemAccess) -> bool {
    ||| exists|c: ComponentId| #[trigger]
        a.writes@.contains(c) && (b.writes@.contains(c) || b.reads@.contains(c))
    ||| exists|c: ComponentId| #[trigger] b.writes@.contains(c) && a.reads@.contains(c)
}

/// Whether `c` occurs in `v`.
fn contains_id(v: &Vec<ComponentId>, c: &ComponentId) -> (r: bool)
    ensures
        r == v@.contains(*c),
{
    let mut i: usize = 0;
    while i < v.len()
        invariant
            i <= v.len(),
            forall|k: int| 0 <= k < i ==> v@[k] != *c,
        decreases v.len() - i,
    {
        if v[i].same(c) {
            return true;
        }
        i = i + 1;
    }
    false
}

/// System access metadata
#[derive(Debug, Clone)]
pub struct SystemAccess {
    pub reads: Vec<ComponentId>,
    pub writes: Vec<ComponentId>,
}

impl Default for SystemAccess {
    fn default() -> (r: Self)
        ensures
            r.reads@ == Seq::<ComponentId>::empty(),
            r.writes@ == Seq::<ComponentId>::empty(),
    {
        Self::new()
    }
}

impl SystemAccess {
    /// Create empty access
    pub fn empty() -> (r: Self)
        ensures
            r.reads@ == Seq::<ComponentId>::empty(),
            r.writes@ == Seq::<ComponentId>::empty(),
    {
        SystemAccess { reads: Vec::new(), writes: Vec::new() }
    }

    /// Create new access (alias for empty)
    pub fn new() -> (r: Self)
        ensures
            r.reads@ == Seq::<ComponentId>::empty(),
            r.writes@ == Seq::<ComponentId>::empty(),
    {
        Self::empty()
    }

    /// Declare read access to a component
    pub fn read<T: 'static>(self) -> (r: Self)
        ensures
            r.reads@.len() == self.reads@.len() + 1,
            r.reads@.subrange(0, self.reads@.len() as int) == self.reads@,
            r.writes@ == self.writes@,
    {
        let mut s = self;
        s.reads.push(ComponentId::of::<T>());
        s
    }

    /// Declare write access to a component
    pub fn write<T: 'static>(self) -> (r: Self)
        ensures
            r.writes@.len() == self.writes@.len() + 1,
            r.writes@.subrange(0, self.writes@.len() as int) == self.writes@,
            r.reads@ == self.reads@,
    {
        let mut s = self;
        s.writes.push(ComponentId::of::<T>());
        s
    }

    /// Declare read access to a resource
    pub fn resource<R: 'static>(self) -> (r: Self)
        ensures
            r.reads@.len() == self.reads@.len() + 1,
            r.reads@.subrange(0, self.reads@.len() as int) == self.reads@,
            r.writes@ == self.writes@,
    {
        let mut s = self;
        s.reads.push(ComponentId::of::<R>());
        s
    }

    /// Declare write access to a resource
    pub fn resource_mut<R: 'static>(self) -> (r: Self)
        ensures
            r.writes@.len() == self.writes@.len() + 1,
            r.writes@.subrange(0, self.writes@.len() as int) == self.writes@,
            r.reads@ == self.reads@,
    {
        let mut s = self;
        s.writes.push(ComponentId::of::<R>());
        s
    }

    /// Merge two accesses (union of all reads/writes)
    pub fn merge(&self, other: &SystemAccess) -> (r: SystemAccess)
        ensures
            r.reads@ == append_absent(self.reads@, other.reads@),
            r.writes@ == append_absent(self.writes@, other.writes@),
    {
        let reads = Self::merge_ids(&self.reads, &other.reads);
        let writes = Self::merge_ids(&self.writes, &other.writes);
        SystemAccess { reads, writes }
    }

    fn merge_ids(base: &Vec<ComponentId>, extra: &Vec<ComponentId>) -> (r: Vec<ComponentId>)
        ensures
            r@ == append_absent(base@, extra@),
    {
        let mut out: Vec<ComponentId> = Vec::new();
        let mut i: usize = 0;
        while i < base.len()
            invariant
                i <= base.len(),
                out@ == base@.subrange(0, i as int),
            decreases base.len() - i,
        {
            out.push(base[i]);
            i = i + 1;
        }
        assert(base@.subrange(0, base@.len() as int) == base@);
        let mut j: usize = 0;
        while j < extra.len()
            invariant
                j <= extra.len(),
                out@ == append_absent(base@, extra@.subrange(0, j as int)),
            decreases extra.len() - j,
        {
            let c = extra[j];
            assert(extra@.subrange(0, j + 1).drop_last() == extra@.subrange(0, j as int));
            if !contains_id(&out, &c) {
                out.push(c);
            }
            j = j + 1;
        }
        assert(extra@.subrange(0, extra@.len() as int) == extra@);
        out
    }

    /// A copy with the same reads and writes.
    pub(crate) fn clone_access(&self) -> (r: SystemAccess)
        ensures
            r.reads@ == self.reads@,
            r.writes@ == self.writes@,
    {
        let reads = Self::merge_ids(&self.reads, &Vec::new());
        let writes = Self::merge_ids(&self.writes, &Vec::new());
        SystemAccess { reads, writes }
    }

    /// Check if this access conflicts with another
    pub fn conflicts_with(&self, other: &SystemAccess) -> (r: bool)
        ensures
            r == accesses_conflict(*self, *other),
    {
        let mut i: usize = 0;
        while i < self.writes.len()
            invariant
                i <= self.writes.len(),
                forall|k: int|
                    0 <= k < i ==> !other.writes@.contains(#[trigger] self.writes@[k])
                        && !other.reads@.contains(self.writes@[k]),
            decreases self.writes.len() - i,
        {
            let w = self.writes[i];
            if contains_id(&other.writes, &w) {
                assert(self.writes@.contains(w));
                return true;
            }
            if contains_id(&other.reads, &w) {
                assert(self.writes@.contains(w));
                return true;
            }
            i = i + 1;
        }
        let mut j: usize = 0;
        while j < other.writes.len()
            invariant
                j <= other.writes.len(),
                forall|k: int|
                    0 <= k < self.writes@.len() ==> !other.writes@.contains(
                        #[trigger] self.writes@[k],
                    ) && !other.reads@.contains(self.writes@[k]),
                forall|k: int| 0 <= k < j ==> !self.reads@.contains(#[trigger] other.writes@[k]),
            decreases other.writes.len() - j,
        {
            let w = other.writes[j];
            if contains_id(&self.reads, &w) {
                assert(other.writes@.contains(w));
                return true;
            }
            j = j + 1;
        }
        false
    }

    /// Check if two systems can run in parallel
    pub fn can_run_parallel(&self, other: &SystemAccess) -> (r: bool)
        ensures
            r == !accesses_conflict(*self, *other),
    {
        !self.conflicts_with(other)
    }
}

/// Conflict between two accesses does not depend on which one is asked.
pub proof fn lemma_conflict_symmetric(a: SystemAccess, b: SystemAccess)
    ensures
        accesses_conflict(a, b) == accesses_conflict(b, a),
{
}

/// The identifiers that a merge keeps are exactly those of either side.
pub proof fn lemma_append_absent_members(base: Seq<ComponentId>, extra: Seq<ComponentId>)
    ensures
        forall|c: ComponentId|
            append_absent(base, extra).contains(c) <==> (base.contains(c) || extra.contains(c)),
    decreases extra.len(),
{
    broadcast use vstd::seq_lib::group_seq_properties;

    if extra.len() > 0 {
        lemma_append_absent_members(base, extra.drop_last());
        assert(extra == extra.drop_last().push(extra.last()));
    }
}

/// Merging accesses declares exactly the reads and writes of both.
pub proof fn lemma_merge_is_union(a: SystemAccess, b: SystemAccess, m: SystemAccess)
    requires
        m.reads@ == append_absent(a.reads@, b.reads@),
        m.writes@ == append_absent(a.writes@, b.writes@),
    ensures
        forall|c: ComponentId| m.reads@.contains(c) <==> (a.reads@.contains(c) || b.reads@.contains(c)),
        forall|c: ComponentId|
            m.writes@.contains(c) <==> (a.writes@.contains(c) || b.writes@.contains(c)),
{
    lemma_append_absent_members(a.reads@, b.reads@);
    lemma_append_absent_members(a.writes@, b.writes@);
}

} // verus!
