//! Archetype storage: one column of component bytes per component type,
//! one row per entity, rows allocated at the end and removed by swapping the
//! last row into the gap.

use crate::entity::EntityId;
use crate::system::type_id_of;
use rustc_hash::FxHashMap;
use std::any::TypeId;
use vstd::layout::size_of;
use vstd::prelude::*;

verus! {

/// Type-erased component column: components stored as raw bytes, each
/// `item_size` bytes long, with the tick at which each row was added and
/// last changed.
pub struct ComponentColumn {
    data: Vec<u8>,
    item_size: usize,
    pub(crate) added_ticks: Vec<u32>,
    pub(crate) changed_ticks: Vec<u32>,
    /// Chunk-level added tracking
    last_added_tick: u32,
    /// Chunk-level change tracking for efficient filtering
    last_change_tick: u32,
}

impl ComponentColumn {
    /// Stored bytes.
    pub closed spec fn bytes(&self) -> Seq<u8> {
        self.data@
    }

    /// Size of one component.
    pub closed spec fn spec_item_size(&self) -> nat {
        self.item_size as nat
    }

    /// Tick at which each row was added.
    pub closed spec fn added(&self) -> Seq<u32> {
        self.added_ticks@
    }

    /// Tick at which each row last changed.
    pub closed spec fn changed(&self) -> Seq<u32> {
        self.changed_ticks@
    }

    /// Latest tick at which a row was added.
    pub closed spec fn last_added(&self) -> u32 {
        self.last_added_tick
    }

    /// Latest tick at which a row changed.
    pub closed spec fn last_changed(&self) -> u32 {
        self.last_change_tick
    }

    /// Number of whole components stored.
    pub open spec fn count(&self) -> nat {
        if self.spec_item_size() == 0 {
            0
        } else {
            self.bytes().len() / self.spec_item_size()
        }
    }

    /// Create new column for type T
    pub fn new<T>() -> (c: Self)
        ensures
            c.spec_item_size() == size_of::<T>(),
            c.bytes() == Seq::<u8>::empty(),
            c.added() == Seq::<u32>::empty(),
            c.changed() == Seq::<u32>::empty(),
            c.last_added() == 0,
            c.last_changed() == 0,
    {
        ComponentColumn {
            data: Vec::new(),
            item_size: std::mem::size_of::<T>(),
            added_ticks: Vec::new(),
            changed_ticks: Vec::new(),
            last_added_tick: 0,
            last_change_tick: 0,
        }
    }

    /// Create an empty column for components of `item_size` bytes.
    pub(crate) fn with_item_size(item_size: usize) -> (c: Self)
        ensures
            c.spec_item_size() == item_size,
            c.bytes() == Seq::<u8>::empty(),
            c.added() == Seq::<u32>::empty(),
            c.changed() == Seq::<u32>::empty(),
            c.last_added() == 0,
            c.last_changed() == 0,
    {
        ComponentColumn {
            data: Vec::new(),
            item_size,
            added_ticks: Vec::new(),
            changed_ticks: Vec::new(),
            last_added_tick: 0,
            last_change_tick: 0,
        }
    }

    /// Create an empty clone of this column (same item size, no data)
    pub fn clone_empty(&self) -> (c: Self)
        ensures
            c.spec_item_size() == self.spec_item_size(),
            c.bytes() == Seq::<u8>::empty(),
            c.added() == Seq::<u32>::empty(),
            c.changed() == Seq::<u32>::empty(),
            c.last_added() == 0,
            c.last_changed() == 0,
    {
        ComponentColumn {
            data: Vec::new(),
            item_size: self.item_size,
            added_ticks: Vec::new(),
            changed_ticks: Vec::new(),
            last_added_tick: 0,
            last_change_tick: 0,
        }
    }

    /// Get component item size
    pub fn get_item_size(&self) -> (r: usize)
        ensures
            r == self.spec_item_size(),
    {
        self.item_size
    }

    /// Mark component as changed at given row; rows past the end are ignored.
    pub fn mark_changed(&mut self, row: usize, tick: u32)
        ensures
            final(self).bytes() == old(self).bytes(),
            final(self).spec_item_size() == old(self).spec_item_size(),
            final(self).added() == old(self).added(),
            final(self).last_added() == old(self).last_added(),
            row < old(self).changed().len() ==> final(self).changed() == old(self).changed().update(
                row as int,
                tick,
            ) && final(self).last_changed() == tick,
            row >= old(self).changed().len() ==> final(self).changed() == old(self).changed()
                && final(self).last_changed() == old(self).last_changed(),
    {
        if row < self.changed_ticks.len() {
            self.changed_ticks.set(row, tick);
            self.last_change_tick = tick;
        }
    }

    /// Check if this column has changed since the given tick
    pub fn changed_since(&self, tick: u32) -> (r: bool)
        ensures
            r == (self.last_changed() > tick),
    {
        self.last_change_tick > tick
    }

    /// Check if any components were added to this column since the given tick
    pub fn added_since(&self, tick: u32) -> (r: bool)
        ensures
            r == (self.last_added() > tick),
    {
        self.last_added_tick > tick
    }

    /// Number of components
    pub fn len(&self) -> (r: usize)
        ensures
            r == self.count(),
    {
        if self.item_size == 0 {
            0
        } else {
            self.data.len() / self.item_size
        }
    }

    /// Is empty
    pub fn is_empty(&self) -> (r: bool)
        ensures
            r == (self.bytes().len() == 0),
    {
        self.data.is_empty()
    }

    /// Get added tick for a row
    pub fn get_added_tick(&self, row: usize) -> (r: Option<u32>)
        ensures
            r == if row < self.added().len() {
                Some(self.added()[row as int])
            } else {
                None
            },
    {
        if row < self.added_ticks.len() {
            Some(self.added_ticks[row])
        } else {
            None
        }
    }

    /// Get changed tick for a row
    pub fn get_changed_tick(&self, row: usize) -> (r: Option<u32>)
        ensures
            r == if row < self.changed().len() {
                Some(self.changed()[row as int])
            } else {
                None
            },
    {
        if row < self.changed_ticks.len() {
            Some(self.changed_ticks[row])
        } else {
            None
        }
    }

    /// Set the changed tick of a row, leaving the column-level tick alone;
    /// rows past the end are ignored.
    pub fn set_changed_tick(&mut self, row: usize, tick: u32)
        ensures
            final(self).bytes() == old(self).bytes(),
            final(self).spec_item_size() == old(self).spec_item_size(),
            final(self).added() == old(self).added(),
            final(self).last_added() == old(self).last_added(),
            final(self).last_changed() == old(self).last_changed(),
            row < old(self).changed().len() ==> final(self).changed() == old(self).changed().update(
                row as int,
                tick,
            ),
            row >= old(self).changed().len() ==> final(self).changed() == old(self).changed(),
    {
        if row < self.changed_ticks.len() {
            self.changed_ticks.set(row, tick);
        }
    }
}

/// `bytes` after removing item `row` (items are `size` bytes long) by moving
/// the last item into its place and dropping the last item.
pub open spec fn item_swap_removed(bytes: Seq<u8>, size: nat, row: nat) -> Seq<u8>
    recommends
        size > 0,
        bytes.len() >= size,
{
    let last = bytes.len() / size - 1;
    Seq::new(
        (last * size) as nat,
        |i: int|
            if row < last && row * size <= i < row * size + size {
                bytes[last * size + (i - row * size)]
            } else {
                bytes[i]
            },
    )
}

/// `new` is `old` with row `row` removed: the last item's bytes move into the
/// row's place and the buffer loses one item (for a non-empty item size);
/// the row's ticks are swap-removed where the row has ticks.
pub open spec fn row_removed(old: ComponentColumn, new: ComponentColumn, row: nat) -> bool {
    &&& new.spec_item_size() == old.spec_item_size()
    &&& new.bytes() == if old.spec_item_size() > 0 {
        item_swap_removed(old.bytes(), old.spec_item_size(), row)
    } else {
        old.bytes()
    }
    &&& row < old.added().len() ==> new.added() == old.added().update(row as int, old.added().last()).drop_last()
        && new.changed() == old.changed().update(row as int, old.changed().last()).drop_last()
    &&& row >= old.added().len() ==> new.added() == old.added() && new.changed() == old.changed()
    &&& new.last_added() == old.last_added()
    &&& new.last_changed() == old.last_changed()
}

impl ComponentColumn {
    /// Same stored bytes, item size and ticks.
    pub open spec fn same_as(&self, other: ComponentColumn) -> bool {
        &&& self.bytes() == other.bytes()
        &&& self.spec_item_size() == other.spec_item_size()
        &&& self.added() == other.added()
        &&& self.changed() == other.changed()
        &&& self.last_added() == other.last_added()
        &&& self.last_changed() == other.last_changed()
    }

    /// The tick lists have one entry per row each.
    pub open spec fn ticks_match(&self) -> bool {
        self.added().len() == self.changed().len()
    }

    /// Record a new row added at `tick`.
    fn push_row_ticks(&mut self, tick: u32)
        ensures
            final(self).bytes() == old(self).bytes(),
            final(self).spec_item_size() == old(self).spec_item_size(),
            final(self).added() == old(self).added().push(tick),
            final(self).changed() == old(self).changed().push(tick),
            final(self).last_added() == tick,
            final(self).last_changed() == tick,
    {
        self.added_ticks.push(tick);
        self.changed_ticks.push(tick);
        self.last_added_tick = tick;
        self.last_change_tick = tick;
    }

    /// Remove row `row`: the last item's bytes move into its place and the
    /// buffer loses one item; the ticks are swap-removed the same way when the
    /// row has ticks.
    fn swap_remove_row(&mut self, row: usize)
        requires
            old(self).ticks_match(),
            old(self).spec_item_size() > 0 ==> old(self).count() >= 1,
        ensures
            final(self).ticks_match(),
            row_removed(*old(self), *final(self), row as nat),
    {
        let item_size = self.item_size;
        if item_size > 0 {
            let ghost old_bytes = self.data@;
            let n_bytes = self.data.len();
            let ghost size = item_size as nat;
            let count = self.len();
            let last_idx = count - 1;
            proof {
                let n = old_bytes.len();
                assert(count == n / size);
                assert(last_idx * size + size <= n) by (nonlinear_arith)
                    requires
                        last_idx + 1 == n / size,
                        size > 0,
                ;
                assert(last_idx * item_size + item_size <= n);
                if row < last_idx {
                    assert(row * item_size < last_idx * item_size) by (nonlinear_arith)
                        requires
                            row < last_idx,
                            item_size > 0,
                    ;
                }
            }
            if row < last_idx {
                let src = last_idx * item_size;
                let dst = row * item_size;
                proof {
                    assert(dst + size <= src) by (nonlinear_arith)
                        requires
                            dst == row * size,
                            src == last_idx * size,
                            row < last_idx,
                    ;
                }
                let mut k: usize = 0;
                while k < item_size
                    invariant
                        self.data@.len() == old_bytes.len(),
                        old_bytes.len() <= usize::MAX,
                        item_size == size,
                        size > 0,
                        src == last_idx * size,
                        dst == row * size,
                        dst + size <= src,
                        src + size <= old_bytes.len(),
                        k <= size,
                        forall|i: int| 0 <= i < old_bytes.len() ==> #[trigger] self.data@[i] == if dst <= i < dst + k {
                            old_bytes[src + (i - dst)]
                        } else {
                            old_bytes[i]
                        },
                        self.item_size == old(self).item_size,
                        self.added_ticks@ == old(self).added_ticks@,
                        self.changed_ticks@ == old(self).changed_ticks@,
                        self.last_added_tick == old(self).last_added_tick,
                        self.last_change_tick == old(self).last_change_tick,
                    decreases size - k,
                {
                    let b = self.data[src + k];
                    self.data.set(dst + k, b);
                    k = k + 1;
                }
            }
            self.data.truncate(last_idx * item_size);
            proof {
                let n = old_bytes.len();
                let last = n / size - 1;
                assert(last == last_idx);
                assert(self.data@ =~= item_swap_removed(old_bytes, size, row as nat)) by {
                    if row < last_idx {
                        assert(row * size + size <= last_idx * size) by (nonlinear_arith)
                            requires
                                row < last_idx,
                                size > 0,
                        ;
                    }
                }
            }
        }
        if row < self.added_ticks.len() {
            self.added_ticks.swap_remove(row);
            self.changed_ticks.swap_remove(row);
        }
    }
}

/// Chunk size in bytes (16KB - fits in L1 cache)
pub const CHUNK_SIZE_BYTES: usize = 16384;

/// Default chunk size in entities for iteration
pub const DEFAULT_CHUNK_SIZE: usize = 64;

/// Component signature: the component types of the archetype.
pub type ArchetypeSignature = Vec<TypeId>;

/// Column position of each component type.
pub type ColumnIndex = FxHashMap<TypeId, usize>;

/// The index of an archetype without columns.
pub open spec fn no_columns() -> Map<TypeId, usize> {
    Map::empty()
}

/// Calls `HashMap::default()` for a map hashed with rustc-hash's
/// `FxBuildHasher`: an empty map.
#[verifier::external_body]
fn fx_index_map_new() -> (map: ColumnIndex)
    ensures
        map@ == no_columns(),
{
    FxHashMap::default()
}

/// Calls `HashMap::get`. `TypeId`'s `Eq` and `Hash` agree with value
/// equality and `FxBuildHasher` hashes equal keys equally, so the answer is
/// the value stored under the key, if any.
#[verifier::external_body]
fn fx_index_map_get(m: &ColumnIndex, key: &TypeId) -> (r: Option<usize>)
    ensures
        r == if m@.contains_key(*key) {
            Some(m@[*key])
        } else {
            None::<usize>
        },
{
    m.get(key).copied()
}

/// Calls `HashMap::contains_key`: whether the key has a value.
#[verifier::external_body]
fn fx_index_map_contains_key(m: &ColumnIndex, key: &TypeId) -> (r: bool)
    ensures
        r == m@.contains_key(*key),
{
    m.contains_key(key)
}

/// Calls `HashMap::insert`: afterwards the key maps to the value and every
/// other key is unchanged.
#[verifier::external_body]
fn fx_index_map_insert(m: &mut ColumnIndex, key: TypeId, value: usize)
    ensures
        final(m)@ == old(m)@.insert(key, value),
{
    m.insert(key, value);
}

/// Archetype: Structure of Arrays storage
pub struct Archetype {
    signature: ArchetypeSignature,
    entities: Vec<EntityId>,
    components: Vec<ComponentColumn>,
    component_indices: ColumnIndex,
    columns_initialized: bool,
}

impl Archetype {
    /// The signature the archetype was made with.
    pub closed spec fn spec_signature(&self) -> ArchetypeSignature {
        self.signature
    }

    /// One entity per row.
    pub closed spec fn rows(&self) -> Seq<EntityId> {
        self.entities@
    }

    /// The component columns, in registration order.
    pub closed spec fn columns(&self) -> Seq<ComponentColumn> {
        self.components@
    }

    /// Column position of each registered component type.
    pub closed spec fn column_of(&self) -> Map<TypeId, usize> {
        self.component_indices@
    }

    /// Whether the columns were marked initialized.
    pub closed spec fn initialized(&self) -> bool {
        self.columns_initialized
    }

    /// Every registered type names an existing column, and each column keeps
    /// one added tick and one changed tick per row it has ticks for.
    pub open spec fn wf(&self) -> bool {
        &&& forall|t: TypeId| #[trigger] self.column_of().contains_key(t) ==> self.column_of()[t] < self.columns().len()
        &&& forall|i: int| 0 <= i < self.columns().len() ==> (#[trigger] self.columns()[i]).ticks_match()
    }

    pub(crate) fn add_column_raw(&mut self, type_id: TypeId, column: ComponentColumn)
        requires
            old(self).wf(),
            column.ticks_match(),
        ensures
            final(self).wf(),
            final(self).rows() == old(self).rows(),
            final(self).spec_signature() == old(self).spec_signature(),
            final(self).initialized() == old(self).initialized(),
            old(self).column_of().contains_key(type_id) ==> final(self).columns() == old(self).columns()
                && final(self).column_of() == old(self).column_of(),
            !old(self).column_of().contains_key(type_id) ==> final(self).columns() == old(self).columns().push(column)
                && final(self).column_of() == old(self).column_of().insert(type_id, old(self).columns().len() as usize),
    {
        if !fx_index_map_contains_key(&self.component_indices, &type_id) {
            let idx = self.components.len();
            self.components.push(column);
            fx_index_map_insert(&mut self.component_indices, type_id, idx);
        }
        proof {
            assert forall|t: TypeId| #[trigger] self.column_of().contains_key(t) implies self.column_of()[t]
                < self.columns().len() by {
                if t != type_id {
                    assert(old(self).column_of().contains_key(t));
                }
            }
            assert forall|i: int| 0 <= i < self.columns().len() implies (#[trigger] self.columns()[i]).ticks_match() by {
                if i < old(self).columns().len() {
                    assert(old(self).columns()[i].ticks_match());
                }
            }
        }
    }

    /// Create new archetype
    pub fn new(signature: ArchetypeSignature) -> (a: Self)
        ensures
            a.wf(),
            a.spec_signature() == signature,
            a.rows() == Seq::<EntityId>::empty(),
            a.columns() == Seq::<ComponentColumn>::empty(),
            a.column_of() == Map::<TypeId, usize>::empty(),
            !a.initialized(),
    {
        let mut archetype = Archetype {
            signature,
            entities: Vec::new(),
            components: Vec::new(),
            component_indices: fx_index_map_new(),
            columns_initialized: false,
        };
        archetype.reserve_rows(128);
        archetype
    }

    /// Get signature
    pub fn signature(&self) -> (r: &ArchetypeSignature)
        ensures
            *r == self.spec_signature(),
    {
        &self.signature
    }

    /// Check if archetype has a component type
    pub fn has_column(&self, type_id: TypeId) -> (r: bool)
        ensures
            r == self.column_of().contains_key(type_id),
    {
        fx_index_map_contains_key(&self.component_indices, &type_id)
    }

    /// Allocate row for entity: the entity goes to a new last row, and every
    /// column records the row as added and changed at `tick`.
    pub fn allocate_row(&mut self, entity: EntityId, tick: u32) -> (row: usize)
        requires
            old(self).wf(),
        ensures
            final(self).wf(),
            row == old(self).rows().len(),
            final(self).rows() == old(self).rows().push(entity),
            final(self).columns().len() == old(self).columns().len(),
            forall|i: int| 0 <= i < old(self).columns().len() ==> {
                let c = #[trigger] final(self).columns()[i];
                let o = old(self).columns()[i];
                &&& c.bytes() == o.bytes()
                &&& c.spec_item_size() == o.spec_item_size()
                &&& c.added() == o.added().push(tick)
                &&& c.changed() == o.changed().push(tick)
                &&& c.last_added() == tick
                &&& c.last_changed() == tick
            },
            final(self).column_of() == old(self).column_of(),
            final(self).spec_signature() == old(self).spec_signature(),
            final(self).initialized() == old(self).initialized(),
    {
        let row = self.entities.len();
        self.entities.push(entity);
        let mut i: usize = 0;
        while i < self.components.len()
            invariant
                i <= self.components@.len(),
                self.components@.len() == old(self).components@.len(),
                self.entities@ == old(self).entities@.push(entity),
                self.component_indices@ == old(self).component_indices@,
                self.signature == old(self).signature,
                self.columns_initialized == old(self).columns_initialized,
                row == old(self).entities@.len(),
                forall|j: int| 0 <= j < i ==> {
                    let c = #[trigger] self.components@[j];
                    let o = old(self).components@[j];
                    &&& c.bytes() == o.bytes()
                    &&& c.spec_item_size() == o.spec_item_size()
                    &&& c.added() == o.added().push(tick)
                    &&& c.changed() == o.changed().push(tick)
                    &&& c.last_added() == tick
                    &&& c.last_changed() == tick
                },
                forall|j: int| i <= j < self.components@.len() ==> #[trigger] self.components@[j] == old(self).components@[j],
                forall|j: int| 0 <= j < old(self).components@.len() ==> (#[trigger] old(self).components@[j]).ticks_match(),
            decreases self.components@.len() - i,
        {
            self.components[i].push_row_ticks(tick);
            i = i + 1;
        }
        proof {
            assert forall|j: int| 0 <= j < self.columns().len() implies (#[trigger] self.columns()[j]).ticks_match() by {
                assert(old(self).columns()[j].ticks_match());
            }
            assert forall|t: TypeId| #[trigger] self.column_of().contains_key(t) implies self.column_of()[t]
                < self.columns().len() by {
                assert(old(self).column_of().contains_key(t));
            }
        }
        row
    }

    /// Reserve space for additional rows (at most 100 000 at once); nothing
    /// that the archetype holds changes.
    pub fn reserve_rows(&mut self, additional: usize)
        requires
            old(self).wf(),
        ensures
            final(self).wf(),
            final(self).rows() == old(self).rows(),
            final(self).columns().len() == old(self).columns().len(),
            forall|i: int| 0 <= i < old(self).columns().len() ==> (#[trigger] final(self).columns()[i]).same_as(old(self).columns()[i]),
            final(self).column_of() == old(self).column_of(),
            final(self).spec_signature() == old(self).spec_signature(),
            final(self).initialized() == old(self).initialized(),
    {
        let additional = if additional < 100_000 {
            additional
        } else {
            100_000
        };
        if additional == 0 {
            return;
        }
        let current_capacity = vec_capacity(&self.entities);
        let current_len = self.entities.len();
        if current_capacity < current_len {
            return;
        }
        if current_capacity - current_len < additional {
            self.entities.reserve(additional);
            let mut i: usize = 0;
            while i < self.components.len()
                invariant
                    i <= self.components@.len(),
                    self.components@.len() == old(self).components@.len(),
                    forall|j: int| 0 <= j < self.components@.len() ==> (#[trigger] self.components@[j]).same_as(old(self).components@[j]),
                    self.entities@ == old(self).entities@,
                    self.component_indices@ == old(self).component_indices@,
                    self.signature == old(self).signature,
                    self.columns_initialized == old(self).columns_initialized,
                decreases self.components@.len() - i,
            {
                self.components[i].reserve_items(additional);
                i = i + 1;
            }
            proof {
                assert forall|j: int| 0 <= j < self.columns().len() implies (#[trigger] self.columns()[j]).ticks_match() by {
                    assert(old(self).columns()[j].ticks_match());
                    assert(self.columns()[j].same_as(old(self).columns()[j]));
                }
                assert forall|t: TypeId| #[trigger] self.column_of().contains_key(t) implies self.column_of()[t]
                    < self.columns().len() by {
                    assert(old(self).column_of().contains_key(t));
                }
            }
        }
    }
}

/// Calls `Vec::capacity`. What an allocator hands out is not claimed: the
/// result is only the number of elements that fit without reallocating.
#[verifier::external_body]
fn vec_capacity<T>(v: &Vec<T>) -> usize {
    v.capacity()
}

impl ComponentColumn {
    /// Make room for `additional` more rows; nothing stored changes.
    fn reserve_items(&mut self, additional: usize)
        ensures
            final(self).same_as(*old(self)),
    {
        let byte_count = match additional.checked_mul(self.item_size) {
            Some(n) => n,
            None => self.item_size,
        };
        self.data.reserve(byte_count);
        self.added_ticks.reserve(additional);
        self.changed_ticks.reserve(additional);
    }
}

impl Archetype {
    /// Remove row and return the entity that was swapped into it: the last
    /// row moves into `row` in the entity list and in every column; `None`
    /// when `row` was the last row. Component bytes are moved, never dropped.
    pub fn remove_row(&mut self, row: usize) -> (r: Option<EntityId>)
        requires
            old(self).wf(),
            row < old(self).rows().len(),
            forall|i: int|
                0 <= i < old(self).columns().len() ==> (#[trigger] old(self).columns()[i]).spec_item_size() > 0
                    ==> old(self).columns()[i].count() >= 1,
        ensures
            final(self).wf(),
            final(self).rows() == old(self).rows().update(row as int, old(self).rows().last()).drop_last(),
            final(self).columns().len() == old(self).columns().len(),
            forall|i: int|
                0 <= i < old(self).columns().len() ==> row_removed(
                    old(self).columns()[i],
                    #[trigger] final(self).columns()[i],
                    row as nat,
                ),
            r == if row < final(self).rows().len() {
                Some(final(self).rows()[row as int])
            } else {
                None::<EntityId>
            },
            final(self).column_of() == old(self).column_of(),
            final(self).spec_signature() == old(self).spec_signature(),
            final(self).initialized() == old(self).initialized(),
    {
        self.entities.swap_remove(row);
        let mut i: usize = 0;
        while i < self.components.len()
            invariant
                i <= self.components@.len(),
                self.components@.len() == old(self).components@.len(),
                self.entities@ == old(self).entities@.update(row as int, old(self).entities@.last()).drop_last(),
                self.component_indices@ == old(self).component_indices@,
                self.signature == old(self).signature,
                self.columns_initialized == old(self).columns_initialized,
                forall|j: int| 0 <= j < i ==> (#[trigger] self.components@[j]).ticks_match()
                    && row_removed(old(self).components@[j], self.components@[j], row as nat),
                forall|j: int| i <= j < self.components@.len() ==> #[trigger] self.components@[j] == old(self).components@[j],
                forall|j: int| 0 <= j < old(self).components@.len() ==> (#[trigger] old(self).components@[j]).ticks_match(),
                forall|j: int|
                    0 <= j < old(self).components@.len() ==> (#[trigger] old(self).components@[j]).spec_item_size() > 0
                        ==> old(self).components@[j].count() >= 1,
            decreases self.components@.len() - i,
        {
            self.components[i].swap_remove_row(row);
            i = i + 1;
        }
        proof {
            assert forall|t: TypeId| #[trigger] self.column_of().contains_key(t) implies self.column_of()[t]
                < self.columns().len() by {
                assert(old(self).column_of().contains_key(t));
            }
        }
        if row < self.entities.len() {
            Some(self.entities[row])
        } else {
            None
        }
    }

    /// Get column immutably
    pub fn get_column(&self, type_id: TypeId) -> (r: Option<&ComponentColumn>)
        ensures
            match r {
                Some(c) => self.column_of().contains_key(type_id) && self.column_of()[type_id] < self.columns().len()
                    && *c == self.columns()[self.column_of()[type_id] as int],
                None => !self.column_of().contains_key(type_id) || self.column_of()[type_id] >= self.columns().len(),
            },
    {
        match fx_index_map_get(&self.component_indices, &type_id) {
            Some(idx) => self.get_column_by_index(idx),
            None => None,
        }
    }

    /// Get column by index
    pub fn get_column_by_index(&self, index: usize) -> (r: Option<&ComponentColumn>)
        ensures
            match r {
                Some(c) => index < self.columns().len() && *c == self.columns()[index as int],
                None => index >= self.columns().len(),
            },
    {
        if index < self.components.len() {
            Some(&self.components[index])
        } else {
            None
        }
    }

    /// Get column index for a component type
    pub fn column_index(&self, type_id: TypeId) -> (r: Option<usize>)
        ensures
            r == if self.column_of().contains_key(type_id) {
                Some(self.column_of()[type_id])
            } else {
                None::<usize>
            },
    {
        fx_index_map_get(&self.component_indices, &type_id)
    }

    pub fn entities(&self) -> (r: &[EntityId])
        ensures
            r@ == self.rows(),
    {
        self.entities.as_slice()
    }

    pub fn len(&self) -> (r: usize)
        ensures
            r == self.rows().len(),
    {
        self.entities.len()
    }

    pub fn is_empty(&self) -> (r: bool)
        ensures
            r == (self.rows().len() == 0),
    {
        self.entities.is_empty()
    }

    /// Register component column for `T` unless its type already has one.
    pub fn register_component<T: 'static>(&mut self)
        requires
            old(self).wf(),
        ensures
            final(self).wf(),
            final(self).rows() == old(self).rows(),
            final(self).spec_signature() == old(self).spec_signature(),
            final(self).initialized() == old(self).initialized(),
            exists|t: TypeId| {
                &&& old(self).column_of().contains_key(t) ==> final(self).columns() == old(self).columns()
                    && final(self).column_of() == old(self).column_of()
                &&& !old(self).column_of().contains_key(t) ==> final(self).columns().len() == old(self).columns().len() + 1
                    && final(self).columns().drop_last() == old(self).columns()
                    && final(self).columns().last().spec_item_size() == size_of::<T>()
                    && final(self).columns().last().bytes() == Seq::<u8>::empty()
                    && final(self).columns().last().added() == Seq::<u32>::empty()
                    && final(self).columns().last().changed() == Seq::<u32>::empty()
                    && final(self).column_of() == old(self).column_of().insert(t, old(self).columns().len() as usize)
            },
    {
        let type_id = type_id_of::<T>();
        let column = ComponentColumn::new::<T>();
        self.add_column_raw(type_id, column);
        proof {
            if !old(self).column_of().contains_key(type_id) {
                assert(self.columns().drop_last() =~= old(self).columns());
            }
        }
    }

    /// Check if all component columns have been initialized for this signature
    pub fn columns_initialized(&self) -> (r: bool)
        ensures
            r == self.initialized(),
    {
        self.columns_initialized
    }

    /// Mark columns as initialized
    pub fn mark_columns_initialized(&mut self)
        requires
            old(self).wf(),
        ensures
            final(self).wf(),
            final(self).initialized(),
            final(self).rows() == old(self).rows(),
            final(self).columns() == old(self).columns(),
            final(self).column_of() == old(self).column_of(),
            final(self).spec_signature() == old(self).spec_signature(),
    {
        self.columns_initialized = true;
        proof {
            assert forall|t: TypeId| #[trigger] self.column_of().contains_key(t) implies self.column_of()[t]
                < self.columns().len() by {
                assert(old(self).column_of().contains_key(t));
            }
            assert forall|j: int| 0 <= j < self.columns().len() implies (#[trigger] self.columns()[j]).ticks_match() by {
                assert(old(self).columns()[j].ticks_match());
            }
        }
    }
}

impl Archetype {
    /// Get column mutably
    pub fn get_column_mut(&mut self, type_id: TypeId) -> (r: Option<&mut ComponentColumn>)
        ensures
            old(self).column_of().contains_key(type_id) && old(self).column_of()[type_id] < old(self).columns().len()
                ==> r is Some,
            r is None ==> *final(self) == *old(self),
            r matches Some(c) ==> old(self).column_of().contains_key(type_id)
                && *c == old(self).columns()[old(self).column_of()[type_id] as int]
                && final(self).columns() == old(self).columns().update(old(self).column_of()[type_id] as int, *final(c))
                && final(self).rows() == old(self).rows()
                && final(self).column_of() == old(self).column_of()
                && final(self).spec_signature() == old(self).spec_signature()
                && final(self).initialized() == old(self).initialized(),
    {
        match fx_index_map_get(&self.component_indices, &type_id) {
            Some(idx) => self.get_column_mut_by_index(idx),
            None => None,
        }
    }

    /// Get component column by precomputed index, mutably
    pub fn get_column_mut_by_index(&mut self, index: usize) -> (r: Option<&mut ComponentColumn>)
        ensures
            index < old(self).columns().len() ==> r is Some,
            index >= old(self).columns().len() ==> r is None && *final(self) == *old(self),
            r matches Some(c) ==> *c == old(self).columns()[index as int]
                && final(self).columns() == old(self).columns().update(index as int, *final(c))
                && final(self).rows() == old(self).rows()
                && final(self).column_of() == old(self).column_of()
                && final(self).spec_signature() == old(self).spec_signature()
                && final(self).initialized() == old(self).initialized(),
    {
        if index < self.components.len() {
            Some(&mut self.components[index])
        } else {
            None
        }
    }
}

/// Chunk of entities with contiguous component data for cache-friendly iteration
pub struct ArchetypeChunk<'a> {
    /// Range of entity indices in this chunk
    pub entity_range: std::ops::Range<usize>,
    /// Reference to the archetype
    pub archetype: &'a Archetype,
}

/// Chunk `j` of rows `0..total` cut every `size` rows.
pub open spec fn is_chunk(range: std::ops::Range<usize>, j: int, size: int, total: int) -> bool {
    &&& range.start == j * size
    &&& range.end == if (j + 1) * size < total {
        (j + 1) * size
    } else {
        total
    }
    &&& range.start < range.end
}

/// A chunk size of zero counts as one.
pub open spec fn rows_per_chunk(chunk_size: usize) -> int {
    if chunk_size == 0 {
        1
    } else {
        chunk_size as int
    }
}

impl Archetype {
    /// Cut the rows into consecutive chunks of `chunk_size` rows (at least
    /// one row each), the last chunk taking what is left.
    pub fn chunks(&self, chunk_size: usize) -> (r: Vec<ArchetypeChunk<'_>>)
        ensures
            forall|j: int| 0 <= j < r@.len() ==> #[trigger] is_chunk(r@[j].entity_range, j, rows_per_chunk(chunk_size),
                self.rows().len() as int) && *r@[j].archetype == *self,
            r@.len() == 0 <==> self.rows().len() == 0,
            r@.len() > 0 ==> r@.last().entity_range.end == self.rows().len(),
    {
        let total = self.len();
        let size: usize = if chunk_size == 0 {
            1
        } else {
            chunk_size
        };
        let mut out: Vec<ArchetypeChunk<'_>> = Vec::new();
        if total == 0 {
            return out;
        }
        let mut start: usize = 0;
        let ghost mut k: int = 0;
        while total - start > size
            invariant
                total == self.rows().len(),
                size >= 1,
                size == rows_per_chunk(chunk_size),
                out@.len() == k,
                start == k * size,
                start < total,
                forall|j: int| 0 <= j < out@.len() ==> #[trigger] is_chunk(out@[j].entity_range, j, size as int, total as int)
                    && *out@[j].archetype == *self,
            decreases total - start,
        {
            let end = start + size;
            proof {
                assert(end == (k + 1) * size) by (nonlinear_arith)
                    requires
                        start == k * size,
                        end == start + size,
                ;
            }
            out.push(ArchetypeChunk { entity_range: start..end, archetype: self });
            start = end;
            proof {
                k = k + 1;
            }
        }
        proof {
            assert((k + 1) * size >= total) by (nonlinear_arith)
                requires
                    start == k * size,
                    total - start <= size,
            ;
        }
        out.push(ArchetypeChunk { entity_range: start..total, archetype: self });
        out
    }
}

impl ComponentColumn {
    /// Store `item` as the bytes of component `index`, growing the buffer to
    /// hold it where needed; bytes that the growth adds around it are zero.
    pub fn write_item(&mut self, index: usize, item: &[u8])
        requires
            item@.len() == old(self).spec_item_size(),
            index * old(self).spec_item_size() + old(self).spec_item_size() <= usize::MAX,
        ensures
            final(self).spec_item_size() == old(self).spec_item_size(),
            final(self).added() == old(self).added(),
            final(self).changed() == old(self).changed(),
            final(self).last_added() == old(self).last_added(),
            final(self).last_changed() == old(self).last_changed(),
            ({
                let size = old(self).spec_item_size();
                let offset = index * size;
                let old_len = old(self).bytes().len();
                &&& final(self).bytes().len() == if offset + size > old_len {
                    offset + size
                } else {
                    old_len as int
                }
                &&& forall|i: int| 0 <= i < final(self).bytes().len() ==> #[trigger] final(self).bytes()[i] == if offset <= i
                    < offset + size {
                    item@[i - offset]
                } else if i < old_len {
                    old(self).bytes()[i]
                } else {
                    0u8
                }
            }),
    {
        let size = self.item_size;
        let offset = index * size;
        let ghost old_bytes = self.data@;
        if offset + size > self.data.len() {
            self.data.resize(offset + size, 0u8);
        }
        proof {
            assert forall|i: int| old_bytes.len() <= i < self.data@.len() implies #[trigger] self.data@[i] == 0u8 by {
                assert(cloned::<u8>(0u8, self.data@[i]));
            }
        }
        let ghost grown = self.data@;
        let grown_len = self.data.len();
        let mut k: usize = 0;
        while k < size
            invariant
                size == self.item_size,
                offset == index * size,
                offset + size <= self.data@.len(),
                self.data@.len() == grown.len(),
                grown.len() == grown_len,
                item@.len() == size,
                k <= size,
                forall|i: int| 0 <= i < grown.len() ==> #[trigger] self.data@[i] == if offset <= i < offset + k {
                    item@[i - offset]
                } else {
                    grown[i]
                },
                self.added_ticks@ == old(self).added_ticks@,
                self.changed_ticks@ == old(self).changed_ticks@,
                self.last_added_tick == old(self).last_added_tick,
                self.last_change_tick == old(self).last_change_tick,
                self.item_size == old(self).item_size,
            decreases size - k,
        {
            self.data.set(offset + k, item[k]);
            k = k + 1;
        }
    }

    /// The bytes of component `index`, if the buffer holds all of them.
    pub fn get_item(&self, index: usize) -> (r: Option<&[u8]>)
        requires
            index * self.spec_item_size() + self.spec_item_size() <= usize::MAX,
        ensures
            ({
                let size = self.spec_item_size();
                let offset = index * size;
                if offset + size > self.bytes().len() {
                    r is None
                } else {
                    r matches Some(b) && b@ == self.bytes().subrange(offset as int, offset + size)
                }
            }),
    {
        let offset = index * self.item_size;
        if offset + self.item_size > self.data.len() {
            return None;
        }
        Some(vstd::slice::slice_subrange(self.data.as_slice(), offset, offset + self.item_size))
    }
}

/// Allocating a row and then removing it again leaves the entity list as it
/// was, and the removal reports no swapped-in entity.
pub proof fn lemma_allocate_then_remove_last(rows: Seq<EntityId>, entity: EntityId)
    ensures
        rows.push(entity).update(rows.len() as int, rows.push(entity).last()).drop_last() == rows,
{
    assert(rows.push(entity).update(rows.len() as int, rows.push(entity).last()).drop_last() =~= rows);
}

/// Removing a row from a column that holds whole items leaves one item fewer.
pub proof fn lemma_row_removal_drops_one_item(bytes: Seq<u8>, size: nat, row: nat)
    requires
        size > 0,
        bytes.len() >= size,
    ensures
        item_swap_removed(bytes, size, row).len() / size == bytes.len() / size - 1,
{
    let last = bytes.len() / size - 1;
    assert(bytes.len() / size >= 1) by {
        vstd::arithmetic::div_mod::lemma_div_is_ordered(size as int, bytes.len() as int, size as int);
        vstd::arithmetic::div_mod::lemma_div_by_self(size as int);
    }
    assert(item_swap_removed(bytes, size, row).len() == last * size);
    vstd::arithmetic::div_mod::lemma_div_multiples_vanish(last as int, size as int);
}

} // verus!
