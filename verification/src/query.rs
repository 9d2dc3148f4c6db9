//! Query signatures: which archetypes a query visits, and a cache of the
//! matching archetypes that is brought up to date as archetypes are added.

use crate::archetype::{Archetype, ComponentColumn};
use crate::world::World;
use std::any::TypeId;
use vstd::prelude::*;

verus! {

/// Component signature for query caching
#[derive(Debug, Clone)]
pub struct QuerySignature {
    /// Components that must be present
    pub required: Vec<TypeId>,
    /// Components that must be absent
    pub excluded: Vec<TypeId>,
}

/// An archetype with these columns has every required component and none
/// of the excluded ones.
pub open spec fn signature_matches(sig: QuerySignature, columns: Map<TypeId, usize>) -> bool {
    &&& forall|k: int| 0 <= k < sig.required@.len() ==> columns.contains_key(#[trigger] sig.required@[k])
    &&& forall|k: int| 0 <= k < sig.excluded@.len() ==> !columns.contains_key(#[trigger] sig.excluded@[k])
}

/// Positions `lo..hi` of the archetypes that match, in increasing order.
pub open spec fn matching_ids(sig: QuerySignature, archetypes: Seq<Archetype>, lo: int, hi: int) -> Seq<usize>
    decreases hi - lo,
{
    if hi <= lo {
        Seq::empty()
    } else {
        let rest = matching_ids(sig, archetypes, lo, hi - 1);
        if signature_matches(sig, archetypes[hi - 1].column_of()) {
            rest.push((hi - 1) as usize)
        } else {
            rest
        }
    }
}

/// Matching the positions up to `mid` and then those from `mid` gives the
/// positions that one scan of the whole range gives.
pub proof fn lemma_matching_ids_split(sig: QuerySignature, archetypes: Seq<Archetype>, lo: int, mid: int, hi: int)
    requires
        lo <= mid <= hi,
    ensures
        matching_ids(sig, archetypes, lo, mid) + matching_ids(sig, archetypes, mid, hi) == matching_ids(
            sig,
            archetypes,
            lo,
            hi,
        ),
    decreases hi - mid,
{
    if hi == mid {
        assert(matching_ids(sig, archetypes, lo, mid) + Seq::<usize>::empty() =~= matching_ids(sig, archetypes, lo, mid));
    } else {
        lemma_matching_ids_split(sig, archetypes, lo, mid, hi - 1);
        let a = matching_ids(sig, archetypes, lo, mid);
        let b = matching_ids(sig, archetypes, mid, hi - 1);
        if signature_matches(sig, archetypes[hi - 1].column_of()) {
            assert(a + b.push((hi - 1) as usize) =~= (a + b).push((hi - 1) as usize));
        }
    }
}

/// The matches of a range depend only on the archetypes in that range.
proof fn lemma_matching_ids_prefix(
    sig: QuerySignature,
    a: Seq<Archetype>,
    b: Seq<Archetype>,
    lo: int,
    hi: int,
)
    requires
        0 <= lo,
        hi <= a.len(),
        hi <= b.len(),
        forall|i: int| lo <= i < hi ==> #[trigger] a[i].column_of() == b[i].column_of(),
    ensures
        matching_ids(sig, a, lo, hi) == matching_ids(sig, b, lo, hi),
    decreases hi - lo,
{
    if hi > lo {
        lemma_matching_ids_prefix(sig, a, b, lo, hi - 1);
        assert(a[hi - 1].column_of() == b[hi - 1].column_of());
    }
}

impl QuerySignature {
    /// Create new empty signature
    pub fn new() -> (s: Self)
        ensures
            s.required@ == Seq::<TypeId>::empty(),
            s.excluded@ == Seq::<TypeId>::empty(),
    {
        QuerySignature { required: Vec::new(), excluded: Vec::new() }
    }

    /// Check if an archetype matches this signature
    pub fn matches(&self, archetype: &Archetype) -> (r: bool)
        ensures
            r == signature_matches(*self, archetype.column_of()),
    {
        let mut i: usize = 0;
        while i < self.required.len()
            invariant
                i <= self.required@.len(),
                forall|k: int| 0 <= k < i ==> archetype.column_of().contains_key(#[trigger] self.required@[k]),
            decreases self.required@.len() - i,
        {
            if archetype.column_index(self.required[i]).is_none() {
                return false;
            }
            i = i + 1;
        }
        let mut j: usize = 0;
        while j < self.excluded.len()
            invariant
                j <= self.excluded@.len(),
                forall|k: int| 0 <= k < self.required@.len() ==> archetype.column_of().contains_key(#[trigger] self.required@[k]),
                forall|k: int| 0 <= k < j ==> !archetype.column_of().contains_key(#[trigger] self.excluded@[k]),
            decreases self.excluded@.len() - j,
        {
            if archetype.column_index(self.excluded[j]).is_some() {
                return false;
            }
            j = j + 1;
        }
        true
    }
}

impl Default for QuerySignature {
    fn default() -> (s: Self)
        ensures
            s.required@ == Seq::<TypeId>::empty(),
            s.excluded@ == Seq::<TypeId>::empty(),
    {
        Self::new()
    }
}

/// Cached result for a specific query signature
pub struct CachedQueryResult {
    pub matches: Vec<usize>,
    pub seen_archetypes: usize,
    pub signature: QuerySignature,
}

impl CachedQueryResult {
    /// Scan all archetypes for those the signature matches.
    pub fn new(signature: QuerySignature, archetypes: &[Archetype]) -> (c: Self)
        ensures
            c.matches@ == matching_ids(signature, archetypes@, 0, archetypes@.len() as int),
            c.seen_archetypes == archetypes@.len(),
            c.signature == signature,
    {
        let mut matched: Vec<usize> = Vec::new();
        let mut id: usize = 0;
        while id < archetypes.len()
            invariant
                id <= archetypes@.len(),
                matched@ == matching_ids(signature, archetypes@, 0, id as int),
            decreases archetypes@.len() - id,
        {
            if signature.matches(&archetypes[id]) {
                matched.push(id);
            }
            id = id + 1;
        }
        CachedQueryResult { matches: matched, seen_archetypes: archetypes.len(), signature }
    }

    /// Scan only the archetypes added since the last scan and append those
    /// that match.
    pub fn update(&mut self, archetypes: &[Archetype])
        ensures
            final(self).signature == old(self).signature,
            archetypes@.len() > old(self).seen_archetypes ==> {
                &&& final(self).matches@ == old(self).matches@ + matching_ids(
                    old(self).signature,
                    archetypes@,
                    old(self).seen_archetypes as int,
                    archetypes@.len() as int,
                )
                &&& final(self).seen_archetypes == archetypes@.len()
            },
            archetypes@.len() <= old(self).seen_archetypes ==> final(self).matches@ == old(self).matches@
                && final(self).seen_archetypes == old(self).seen_archetypes,
    {
        let count = archetypes.len();
        if count > self.seen_archetypes {
            let start = self.seen_archetypes;
            let mut id: usize = start;
            proof {
                assert(old(self).matches@ + matching_ids(self.signature, archetypes@, start as int, start as int)
                    =~= old(self).matches@);
            }
            while id < count
                invariant
                    start <= id <= count,
                    count == archetypes@.len(),
                    self.signature == old(self).signature,
                    self.matches@ == old(self).matches@ + matching_ids(self.signature, archetypes@, start as int, id as int),
                decreases count - id,
            {
                let ghost before = self.matches@;
                if self.signature.matches(&archetypes[id]) {
                    self.matches.push(id);
                    proof {
                        assert(old(self).matches@ + matching_ids(self.signature, archetypes@, start as int, id as int).push(id)
                            =~= before.push(id));
                    }
                }
                id = id + 1;
            }
            self.seen_archetypes = count;
        }
    }
}

/// Building a cache over some archetypes and bringing it up to date after
/// more archetypes were appended gives the matches that building it over
/// all of them gives.
pub proof fn lemma_update_equals_rescan(
    sig: QuerySignature,
    earlier: Seq<Archetype>,
    later: Seq<Archetype>,
)
    requires
        earlier.len() <= later.len(),
        forall|i: int| 0 <= i < earlier.len() ==> #[trigger] earlier[i].column_of() == later[i].column_of(),
    ensures
        matching_ids(sig, earlier, 0, earlier.len() as int) + matching_ids(
            sig,
            later,
            earlier.len() as int,
            later.len() as int,
        ) == matching_ids(sig, later, 0, later.len() as int),
{
    lemma_matching_ids_prefix(sig, earlier, later, 0, earlier.len() as int);
    lemma_matching_ids_split(sig, later, 0, earlier.len() as int, later.len() as int);
}


/// A per-row filter on one component's change ticks.
#[derive(Debug, Clone, Copy)]
pub enum TickFilter {
    /// `Changed<T>`: the component changed after the query's tick.
    Changed(TypeId),
    /// `Added<T>`: the component was added after the query's tick.
    Added(TypeId),
}

/// The component type a filter reads.
pub open spec fn filter_type(f: TickFilter) -> TypeId {
    match f {
        TickFilter::Changed(t) => t,
        TickFilter::Added(t) => t,
    }
}

/// The per-row ticks a filter compares in a column.
pub open spec fn filter_ticks(f: TickFilter, c: ComponentColumn) -> Seq<u32> {
    match f {
        TickFilter::Changed(_) => c.changed(),
        TickFilter::Added(_) => c.added(),
    }
}

/// The column-level tick a filter compares in a column.
pub open spec fn filter_last(f: TickFilter, c: ComponentColumn) -> u32 {
    match f {
        TickFilter::Changed(_) => c.last_changed(),
        TickFilter::Added(_) => c.last_added(),
    }
}

/// The archetype has the filter's column, and that column as a whole
/// changed (or gained a row) after `since`.
pub open spec fn filter_column_ok(f: TickFilter, arch: Archetype, since: u32) -> bool {
    let t = filter_type(f);
    &&& arch.column_of().contains_key(t)
    &&& arch.column_of()[t] < arch.columns().len()
    &&& filter_last(f, arch.columns()[arch.column_of()[t] as int]) > since
}

/// The filter's column has a tick for `row`, and it is later than `since`.
pub open spec fn filter_row_ok(f: TickFilter, arch: Archetype, since: u32, row: int) -> bool {
    let t = filter_type(f);
    let ticks = filter_ticks(f, arch.columns()[arch.column_of()[t] as int]);
    &&& arch.column_of().contains_key(t)
    &&& arch.column_of()[t] < arch.columns().len()
    &&& 0 <= row < ticks.len()
    &&& ticks[row] > since
}

/// `p` comes no later than `q` in (archetype, row) order.
pub open spec fn position_le(p: (int, int), q: (int, int)) -> bool {
    p.0 < q.0 || (p.0 == q.0 && p.1 <= q.1)
}

/// `p` comes strictly before `q` in (archetype, row) order.
pub open spec fn position_lt(p: (int, int), q: (int, int)) -> bool {
    p.0 < q.0 || (p.0 == q.0 && p.1 < q.1)
}

/// A query's walk over the rows of its archetypes: the archetypes are
/// visited in the order of `archetype_ids`, and the rows of each in order.
pub struct QueryCursor {
    signature: QuerySignature,
    archetype_ids: Vec<usize>,
    filters: Vec<TickFilter>,
    change_tick: u32,
    archetype_index: usize,
    entity_index: usize,
}

impl QueryCursor {
    /// Components that must be present and absent.
    pub closed spec fn sig(&self) -> QuerySignature {
        self.signature
    }

    /// The archetypes to visit, as positions in the world.
    pub closed spec fn ids(&self) -> Seq<usize> {
        self.archetype_ids@
    }

    /// The change filters every row must pass.
    pub closed spec fn tick_filters(&self) -> Seq<TickFilter> {
        self.filters@
    }

    /// Rows pass a filter when their tick is later than this one.
    pub closed spec fn since(&self) -> u32 {
        self.change_tick
    }

    /// The next (position in `archetype_ids`, row) to look at.
    pub closed spec fn position(&self) -> (int, int) {
        (self.archetype_index as int, self.entity_index as int)
    }

    /// The cursor never stands past the end of its archetype list.
    pub closed spec fn inv(&self) -> bool {
        self.archetype_index <= self.archetype_ids@.len()
    }

    /// Archetype `a` of `world` exists, matches the signature, and every
    /// filter's column changed after the query's tick.
    pub open spec fn ready(&self, world: World, a: usize) -> bool {
        let arch = world.archetype_seq()[a as int];
        &&& a < world.archetype_seq().len()
        &&& signature_matches(self.sig(), arch.column_of())
        &&& forall|j: int| 0 <= j < self.tick_filters().len() ==> filter_column_ok(#[trigger] self.tick_filters()[j], arch, self.since())
    }

    /// Row `row` of the `k`-th listed archetype is one the query yields.
    pub open spec fn hit(&self, world: World, k: int, row: int) -> bool {
        let a = self.ids()[k];
        let arch = world.archetype_seq()[a as int];
        &&& 0 <= k < self.ids().len()
        &&& self.ready(world, a)
        &&& 0 <= row < arch.rows().len()
        &&& forall|j: int| 0 <= j < self.tick_filters().len() ==> filter_row_ok(#[trigger] self.tick_filters()[j], arch, self.since(), row)
    }

    /// The fields other than the position are those of `other`.
    pub open spec fn same_query(&self, other: QueryCursor) -> bool {
        &&& self.sig() == other.sig()
        &&& self.ids() == other.ids()
        &&& self.tick_filters() == other.tick_filters()
        &&& self.since() == other.since()
    }

    /// A cursor at the first row of the first listed archetype.
    pub fn new(signature: QuerySignature, archetype_ids: Vec<usize>, filters: Vec<TickFilter>, change_tick: u32) -> (c: Self)
        ensures
            c.sig() == signature,
            c.ids() == archetype_ids@,
            c.tick_filters() == filters@,
            c.since() == change_tick,
            c.position() == (0int, 0int),
            c.inv(),
    {
        QueryCursor { signature, archetype_ids, filters, change_tick, archetype_index: 0, entity_index: 0 }
    }

    /// Whether archetype `a` of `world` is one whose rows are looked at.
    fn archetype_ready(&self, world: &World, a: usize) -> (r: bool)
        ensures
            r == self.ready(*world, a),
    {
        match world.get_archetype(a) {
            None => false,
            Some(arch) => {
                if !self.signature.matches(arch) {
                    return false;
                }
                let mut j: usize = 0;
                while j < self.filters.len()
                    invariant
                        j <= self.filters@.len(),
                        a < world.archetype_seq().len(),
                        *arch == world.archetype_seq()[a as int],
                        forall|i: int| 0 <= i < j ==> filter_column_ok(#[trigger] self.filters@[i], *arch, self.change_tick),
                    decreases self.filters@.len() - j,
                {
                    let f = self.filters[j];
                    let t = match f {
                        TickFilter::Changed(t) => t,
                        TickFilter::Added(t) => t,
                    };
                    let ok = match arch.get_column(t) {
                        None => false,
                        Some(c) => match f {
                            TickFilter::Changed(_) => c.changed_since(self.change_tick),
                            TickFilter::Added(_) => c.added_since(self.change_tick),
                        },
                    };
                    if !ok {
                        assert(!filter_column_ok(self.tick_filters()[j as int], *arch, self.since()));
                        return false;
                    }
                    j = j + 1;
                }
                true
            },
        }
    }

    /// Whether row `row` of `arch` passes every filter.
    fn row_passes(&self, arch: &Archetype, row: usize) -> (r: bool)
        ensures
            r == forall|j: int| 0 <= j < self.filters@.len() ==> filter_row_ok(#[trigger] self.filters@[j], *arch, self.change_tick, row as int),
    {
        let mut j: usize = 0;
        while j < self.filters.len()
            invariant
                j <= self.filters@.len(),
                forall|i: int| 0 <= i < j ==> filter_row_ok(#[trigger] self.filters@[i], *arch, self.change_tick, row as int),
            decreases self.filters@.len() - j,
        {
            let f = self.filters[j];
            let t = match f {
                TickFilter::Changed(t) => t,
                TickFilter::Added(t) => t,
            };
            let tick = match arch.get_column(t) {
                None => None,
                Some(c) => match f {
                    TickFilter::Changed(_) => c.get_changed_tick(row),
                    TickFilter::Added(_) => c.get_added_tick(row),
                },
            };
            let ok = match tick {
                None => false,
                Some(x) => x > self.change_tick,
            };
            if !ok {
                return false;
            }
            j = j + 1;
        }
        true
    }

    /// Step to the next row the query yields: the first (archetype, row)
    /// at or after the cursor whose archetype matches the signature, whose
    /// filter columns changed after the query's tick, and whose row passes
    /// every filter. Returns the archetype's position in the world and the
    /// row, and leaves the cursor just after it; `None` when no such row is
    /// left.
    pub fn next_row(&mut self, world: &World) -> (r: Option<(usize, usize)>)
        requires
            old(self).inv(),
        ensures
            final(self).same_query(*old(self)),
            final(self).inv(),
            match r {
                Some((a, row)) => {
                    let k = final(self).position().0;
                    &&& final(self).position() == (k, row + 1)
                    &&& position_le(old(self).position(), (k, row as int))
                    &&& old(self).hit(*world, k, row as int)
                    &&& old(self).ids()[k] == a
                    &&& forall|k2: int, r2: int|
                        position_le(old(self).position(), (k2, r2)) && position_lt((k2, r2), (k, row as int))
                            ==> !old(self).hit(*world, k2, r2)
                },
                None => {
                    &&& final(self).position().0 == old(self).ids().len()
                    &&& forall|k2: int, r2: int| position_le(old(self).position(), (k2, r2)) ==> !old(self).hit(*world, k2, r2)
                },
            },
    {
        let ghost start = self.position();
        while self.archetype_index < self.archetype_ids.len()
            invariant
                self.same_query(*old(self)),
                self.inv(),
                position_le(start, self.position()),
                start == old(self).position(),
                forall|k2: int, r2: int|
                    position_le(start, (k2, r2)) && position_lt((k2, r2), self.position()) ==> !old(self).hit(*world, k2, r2),
            decreases self.archetype_ids@.len() - self.archetype_index,
        {
            let k = self.archetype_index;
            let a = self.archetype_ids[k];
            if self.archetype_ready(world, a) {
                let arch = match world.get_archetype(a) {
                    Some(x) => x,
                    None => {
                        return None;
                    },
                };
                let n = arch.len();
                while self.entity_index < n
                    invariant
                        self.same_query(*old(self)),
                        self.inv(),
                        self.archetype_index == k,
                        k < self.archetype_ids@.len(),
                        a == self.archetype_ids@[k as int],
                        a < world.archetype_seq().len(),
                        *arch == world.archetype_seq()[a as int],
                        n == arch.rows().len(),
                        self.ready(*world, a),
                        position_le(start, self.position()),
                        start == old(self).position(),
                        forall|k2: int, r2: int|
                            position_le(start, (k2, r2)) && position_lt((k2, r2), self.position()) ==> !old(self).hit(*world, k2, r2),
                    decreases n - self.entity_index,
                {
                    let row = self.entity_index;
                    if self.row_passes(arch, row) {
                        proof {
                            assert(old(self).hit(*world, k as int, row as int));
                        }
                        self.entity_index = row + 1;
                        return Some((a, row));
                    }
                    self.entity_index = row + 1;
                }
            }
            self.archetype_index = k + 1;
            self.entity_index = 0;
        }
        None
    }
}

} // verus!
