//! The world: live entities, where each one's components are stored, and the
//! archetypes that store them.

use crate::archetype::{item_swap_removed, lemma_row_removal_drops_one_item, row_removed, Archetype};
use crate::archetype::ComponentColumn;
use crate::entity::{lemma_key_identifies, EntityId, EntityLocation};
use crate::system::type_id_eq;
use std::any::TypeId;
use crate::error::{EcsError, Result};
use slotmap::{DefaultKey, Key, KeyData, SlotMap};
use vstd::prelude::*;

verus! {

/// Entity locations, keyed by slotmap keys.
#[verifier::external_body]
pub struct EntityTable {
    map: SlotMap<DefaultKey, EntityLocation>,
}

/// The location recorded under each key of the table.
pub uninterp spec fn table_entries(t: EntityTable) -> Map<KeyData, EntityLocation>;

/// The slots the table has made, slotmap's sentinel slot included.
pub uninterp spec fn table_slots(t: EntityTable) -> nat;

/// A table without entries.
pub open spec fn no_entries() -> Map<KeyData, EntityLocation> {
    Map::empty()
}

/// Calls `SlotMap::new`: an empty map whose only slot is the sentinel.
#[verifier::external_body]
fn table_new() -> (t: EntityTable)
    ensures
        table_entries(t) == no_entries(),
        table_slots(t) == 1,
{
    EntityTable { map: SlotMap::new() }
}

/// Calls `SlotMap::insert`, which panics only once `u32::MAX` slots exist.
/// The key it returns is not in use; it then maps to `loc`. An insert reuses
/// a free slot or makes one more, and every entry holds a slot other than
/// the sentinel.
#[verifier::external_body]
fn table_insert(t: &mut EntityTable, loc: EntityLocation) -> (key: KeyData)
    requires
        table_slots(*old(t)) < u32::MAX,
    ensures
        !table_entries(*old(t)).contains_key(key),
        table_entries(*final(t)) == table_entries(*old(t)).insert(key, loc),
        table_slots(*final(t)) <= table_slots(*old(t)) + 1,
        table_entries(*final(t)).dom().finite(),
        table_entries(*final(t)).len() < table_slots(*final(t)),
{
    t.map.insert(loc).data()
}

/// Calls `SlotMap::get`: the location under the key, if the key is in use.
#[verifier::external_body]
fn table_get(t: &EntityTable, key: KeyData) -> (r: Option<EntityLocation>)
    ensures
        r == if table_entries(*t).contains_key(key) {
            Some(table_entries(*t)[key])
        } else {
            None::<EntityLocation>
        },
{
    t.map.get(DefaultKey::from(key)).copied()
}

/// Assigns through `SlotMap`'s `IndexMut`, which panics on a key not in use:
/// the key then maps to `loc`.
#[verifier::external_body]
fn table_set(t: &mut EntityTable, key: KeyData, loc: EntityLocation)
    requires
        table_entries(*old(t)).contains_key(key),
    ensures
        table_entries(*final(t)) == table_entries(*old(t)).insert(key, loc),
        table_slots(*final(t)) == table_slots(*old(t)),
{
    t.map[DefaultKey::from(key)] = loc;
}

/// Calls `SlotMap::remove`: the location under the key, if in use, and the
/// key leaves the map; slots are kept for reuse.
#[verifier::external_body]
fn table_remove(t: &mut EntityTable, key: KeyData) -> (r: Option<EntityLocation>)
    ensures
        r == if table_entries(*old(t)).contains_key(key) {
            Some(table_entries(*old(t))[key])
        } else {
            None::<EntityLocation>
        },
        table_entries(*final(t)) == table_entries(*old(t)).remove(key),
        table_slots(*final(t)) == table_slots(*old(t)),
{
    t.map.remove(DefaultKey::from(key))
}

/// Calls `SlotMap::clear`: no key stays in use; the slots are kept.
#[verifier::external_body]
fn table_clear(t: &mut EntityTable)
    ensures
        table_entries(*final(t)) == no_entries(),
        table_slots(*final(t)) == table_slots(*old(t)),
{
    t.map.clear();
}

/// Calls `SlotMap::len`: the number of keys in use.
#[verifier::external_body]
fn table_len(t: &EntityTable) -> (n: usize)
    ensures
        n == table_entries(*t).len(),
{
    t.map.len()
}

/// Central ECS world
pub struct World {
    entity_locations: EntityTable,
    recycled_entities: usize,
    archetypes: Vec<Archetype>,
    tick: u32,
}

impl World {
    /// The location of each live entity, by key.
    pub closed spec fn entries(&self) -> Map<KeyData, EntityLocation> {
        table_entries(self.entity_locations)
    }

    /// Slots the entity table has made.
    pub closed spec fn slots(&self) -> nat {
        table_slots(self.entity_locations)
    }

    /// The archetypes, by position.
    pub closed spec fn archetype_seq(&self) -> Seq<Archetype> {
        self.archetypes@
    }

    /// Entities despawned and not yet replaced by a spawn.
    pub closed spec fn recycled(&self) -> nat {
        self.recycled_entities as nat
    }

    /// The current tick.
    pub closed spec fn spec_tick(&self) -> u32 {
        self.tick
    }

    /// The entity is alive.
    pub open spec fn live(&self, e: EntityId) -> bool {
        self.entries().contains_key(e.key())
    }

    /// Where a live entity's components are stored.
    pub open spec fn location(&self, e: EntityId) -> EntityLocation {
        self.entries()[e.key()]
    }

    /// Every live entity sits at its recorded row, every row holds the live
    /// entity recorded there, archetypes are well formed, each column holds
    /// one component per row, and each archetype has one column per type of
    /// its signature, in signature order.
    pub open spec fn wf(&self) -> bool {
        let arch = self.archetype_seq();
        &&& self.entries().dom().finite()
        &&& self.entries().len() < self.slots()
        &&& self.slots() <= u32::MAX
        &&& forall|k: KeyData| #[trigger] self.entries().contains_key(k) ==> {
            let l = self.entries()[k];
            &&& l.archetype_id < arch.len()
            &&& l.archetype_row < arch[l.archetype_id as int].rows().len()
            &&& arch[l.archetype_id as int].rows()[l.archetype_row as int].key() == k
        }
        &&& forall|a: int, r: int|
            0 <= a < arch.len() && 0 <= r < arch[a].rows().len() ==> {
                &&& self.entries().contains_key((#[trigger] arch[a].rows()[r]).key())
                &&& self.entries()[arch[a].rows()[r].key()].archetype_id == a
                &&& self.entries()[arch[a].rows()[r].key()].archetype_row == r
            }
        &&& forall|a: int| 0 <= a < arch.len() ==> (#[trigger] arch[a]).wf()
        &&& forall|a: int, i: int|
            0 <= a < arch.len() && 0 <= i < arch[a].columns().len() ==> (#[trigger] arch[a].columns()[i]).bytes().len()
                == arch[a].rows().len() * arch[a].columns()[i].spec_item_size()
        &&& forall|a: int, i: int|
            0 <= a < arch.len() && 0 <= i < arch[a].columns().len() ==> (#[trigger] arch[a].columns()[i]).added().len()
                == arch[a].rows().len()
        &&& forall|a: int| 0 <= a < arch.len() ==> columns_follow_signature(#[trigger] arch[a])
    }

    /// `wf` for a world in which the entity with key `k` is being moved: its
    /// key is in use but no row holds it and its recorded location means
    /// nothing.
    pub open spec fn wf_without(&self, k: KeyData) -> bool {
        let arch = self.archetype_seq();
        &&& self.entries().dom().finite()
        &&& self.entries().len() < self.slots()
        &&& self.slots() <= u32::MAX
        &&& self.entries().contains_key(k)
        &&& forall|k2: KeyData| #[trigger] self.entries().contains_key(k2) && k2 != k ==> {
            let l = self.entries()[k2];
            &&& l.archetype_id < arch.len()
            &&& l.archetype_row < arch[l.archetype_id as int].rows().len()
            &&& arch[l.archetype_id as int].rows()[l.archetype_row as int].key() == k2
        }
        &&& forall|a: int, r: int|
            0 <= a < arch.len() && 0 <= r < arch[a].rows().len() ==> {
                &&& self.entries().contains_key((#[trigger] arch[a].rows()[r]).key())
                &&& arch[a].rows()[r].key() != k
                &&& self.entries()[arch[a].rows()[r].key()].archetype_id == a
                &&& self.entries()[arch[a].rows()[r].key()].archetype_row == r
            }
        &&& forall|a: int| 0 <= a < arch.len() ==> (#[trigger] arch[a]).wf()
        &&& forall|a: int, i: int|
            0 <= a < arch.len() && 0 <= i < arch[a].columns().len() ==> (#[trigger] arch[a].columns()[i]).bytes().len()
                == arch[a].rows().len() * arch[a].columns()[i].spec_item_size()
        &&& forall|a: int, i: int|
            0 <= a < arch.len() && 0 <= i < arch[a].columns().len() ==> (#[trigger] arch[a].columns()[i]).added().len()
                == arch[a].rows().len()
        &&& forall|a: int| 0 <= a < arch.len() ==> columns_follow_signature(#[trigger] arch[a])
    }

    /// Create a new, empty world. Its archetype 0 is the one of entities
    /// without components.
    pub fn new() -> (w: Self)
        ensures
            w.wf(),
            w.entries() == no_entries(),
            w.archetype_seq().len() == 1,
            w.archetype_seq()[0].spec_signature()@ == Seq::<TypeId>::empty(),
            w.archetype_seq()[0].rows() == Seq::<EntityId>::empty(),
            w.recycled() == 0,
            w.spec_tick() == 1,
            w.slots() == 1,
    {
        let mut w = World { entity_locations: table_new(), recycled_entities: 0, archetypes: Vec::new(), tick: 1 };
        assert(w.entries().dom() =~= Set::<KeyData>::empty());
        let no_components: Vec<RawComponent> = Vec::new();
        w.create_archetype(&no_components);
        assert(item_types(no_components@) =~= Seq::<TypeId>::empty());
        w
    }

    pub fn tick(&self) -> (t: u32)
        ensures
            t == self.spec_tick(),
    {
        self.tick
    }

    /// Advance the tick.
    pub fn increment_tick(&mut self)
        requires
            old(self).spec_tick() < u32::MAX,
        ensures
            final(self).spec_tick() == old(self).spec_tick() + 1,
            final(self).entries() == old(self).entries(),
            final(self).archetype_seq() == old(self).archetype_seq(),
            final(self).recycled() == old(self).recycled(),
            final(self).slots() == old(self).slots(),
    {
        self.tick = self.tick + 1;
    }

    /// Whether the entity is alive.
    pub fn is_alive(&self, entity: EntityId) -> (r: bool)
        ensures
            r == self.live(entity),
    {
        table_get(&self.entity_locations, entity.data()).is_some()
    }

    /// Whether the entity exists.
    pub fn entity_exists(&self, entity: EntityId) -> (r: bool)
        ensures
            r == self.live(entity),
    {
        self.is_alive(entity)
    }

    /// Where the entity's components are stored, if it is alive.
    pub fn get_entity_location(&self, entity: EntityId) -> (r: Option<EntityLocation>)
        ensures
            r == if self.live(entity) {
                Some(self.location(entity))
            } else {
                None::<EntityLocation>
            },
    {
        table_get(&self.entity_locations, entity.data())
    }

    /// Number of live entities.
    pub fn entity_count(&self) -> (n: usize)
        ensures
            n == self.entries().len(),
    {
        table_len(&self.entity_locations)
    }

    /// Entities despawned and not yet replaced by a spawn.
    pub fn recycled_entity_count(&self) -> (n: usize)
        ensures
            n == self.recycled(),
    {
        self.recycled_entities
    }

    pub fn archetype_count(&self) -> (n: usize)
        ensures
            n == self.archetype_seq().len(),
    {
        self.archetypes.len()
    }

    pub fn archetypes(&self) -> (r: &[Archetype])
        ensures
            r@ == self.archetype_seq(),
    {
        self.archetypes.as_slice()
    }

    pub fn get_archetype(&self, id: usize) -> (r: Option<&Archetype>)
        ensures
            match r {
                Some(a) => id < self.archetype_seq().len() && *a == self.archetype_seq()[id as int],
                None => id >= self.archetype_seq().len(),
            },
    {
        if id < self.archetypes.len() {
            Some(&self.archetypes[id])
        } else {
            None
        }
    }
}

/// The archetype has one column per type of its signature, column `j` for
/// the signature's `j`-th type.
pub open spec fn columns_follow_signature(a: Archetype) -> bool {
    &&& a.columns().len() == a.spec_signature()@.len()
    &&& forall|t: TypeId| #[trigger] a.column_of().contains_key(t) ==> a.spec_signature()@.contains(t)
    &&& forall|i: int| 0 <= i < a.columns().len() ==> (#[trigger] a.columns()[i]).spec_item_size() * (u32::MAX as int) <= usize::MAX
    &&& forall|j: int|
        0 <= j < a.spec_signature()@.len() ==> a.column_of().contains_key(#[trigger] a.spec_signature()@[j])
            && a.column_of()[a.spec_signature()@[j]] == j
}

impl Default for World {
    fn default() -> (w: Self)
        ensures
            w.wf(),
            w.entries() == no_entries(),
            w.archetype_seq().len() == 1,
    {
        Self::new()
    }
}

impl World {
    /// Take a live entity out of its row: the archetype's last row moves into
    /// it and the entity moved there gets its new location. The entity's key
    /// stays in use; its recorded location is left as it was.
    fn detach(&mut self, entity: EntityId) -> (location: EntityLocation)
        requires
            old(self).wf(),
            old(self).live(entity),
        ensures
            final(self).wf_without(entity.key()),
            location == old(self).location(entity),
            final(self).slots() == old(self).slots(),
            final(self).recycled() == old(self).recycled(),
            final(self).spec_tick() == old(self).spec_tick(),
            ({
                let l = old(self).location(entity);
                let rows = old(self).archetype_seq()[l.archetype_id as int].rows();
                let arch = final(self).archetype_seq()[l.archetype_id as int];
                &&& final(self).archetype_seq().len() == old(self).archetype_seq().len()
                &&& forall|a: int| 0 <= a < old(self).archetype_seq().len() && a != l.archetype_id ==> #[trigger] final(self).archetype_seq()[a] == old(self).archetype_seq()[a]
                &&& arch.rows() == rows.update(l.archetype_row as int, rows.last()).drop_last()
                &&& arch.columns().len() == old(self).archetype_seq()[l.archetype_id as int].columns().len()
                &&& forall|i: int| 0 <= i < arch.columns().len() ==> row_removed(
                    old(self).archetype_seq()[l.archetype_id as int].columns()[i],
                    #[trigger] arch.columns()[i],
                    l.archetype_row as nat,
                )
                &&& arch.column_of() == old(self).archetype_seq()[l.archetype_id as int].column_of()
                &&& arch.spec_signature() == old(self).archetype_seq()[l.archetype_id as int].spec_signature()
                &&& final(self).entries() == if l.archetype_row + 1 < rows.len() {
                    old(self).entries().insert(rows.last().key(), l)
                } else {
                    old(self).entries()
                }
            }),
    {
        let ghost old_arch = self.archetypes@;
        let ghost old_entries = self.entries();
        let location = match table_get(&self.entity_locations, entity.data()) {
            Some(l) => l,
            None => {
                proof {
                    assert(false);
                }
                return EntityLocation { archetype_id: 0, archetype_row: 0 };
            },
        };
        let aid = location.archetype_id;
        let row = location.archetype_row;
        let ghost rows = old_arch[aid as int].rows();
        proof {
            assert(old_entries.contains_key(entity.key()));
            assert(rows[row as int].key() == entity.key());
            assert forall|i: int| 0 <= i < old_arch[aid as int].columns().len() implies (#[trigger] old_arch[aid as int].columns()[i]).spec_item_size() > 0
                ==> old_arch[aid as int].columns()[i].count() >= 1 by {
                let c = old_arch[aid as int].columns()[i];
                let size = c.spec_item_size();
                assert(old_arch == old(self).archetype_seq());
                assert(c.bytes().len() == rows.len() * size);
                if size > 0 {
                    vstd::arithmetic::div_mod::lemma_div_multiples_vanish(rows.len() as int, size as int);
                    assert(c.count() == rows.len());
                }
            }
        }
        let swapped = self.archetypes[aid].remove_row(row);
        let ghost mid_entries = self.entries();
        match swapped {
            Some(s) => {
                proof {
                    assert(s == rows.last());
                    let li = rows.len() - 1;
                    assert(rows[li] == rows.last());
                    assert(old_entries.contains_key(rows[li].key()));
                    assert(old_entries[rows[li].key()].archetype_row == li);
                    assert(li != row);
                    if rows[li].key() == entity.key() {
                        lemma_key_identifies(rows[li], entity);
                    }
                    assert(mid_entries.contains_key(s.key()));
                    assert(old_arch[aid as int].rows().len() > 0);
                }
                table_set(&mut self.entity_locations, s.data(), location);
            },
            None => {},
        }
        proof {
            self.lemma_detach_keeps(old_arch, old_entries, entity, location);
        }
        location
    }

    proof fn lemma_detach_keeps(
        &self,
        old_arch: Seq<Archetype>,
        old_entries: Map<KeyData, EntityLocation>,
        entity: EntityId,
        l: EntityLocation,
    )
        requires
            ({
                let arch = self.archetype_seq();
                let rows = old_arch[l.archetype_id as int].rows();
                &&& old_entries.dom().finite()
                &&& old_entries.len() < self.slots()
                &&& self.slots() <= u32::MAX
                &&& old_entries.contains_key(entity.key())
                &&& old_entries[entity.key()] == l
                &&& forall|k: KeyData| #[trigger] old_entries.contains_key(k) ==> {
                    let m = old_entries[k];
                    &&& m.archetype_id < old_arch.len()
                    &&& m.archetype_row < old_arch[m.archetype_id as int].rows().len()
                    &&& old_arch[m.archetype_id as int].rows()[m.archetype_row as int].key() == k
                }
                &&& forall|a: int, r: int|
                    0 <= a < old_arch.len() && 0 <= r < old_arch[a].rows().len() ==> {
                        &&& old_entries.contains_key((#[trigger] old_arch[a].rows()[r]).key())
                        &&& old_entries[old_arch[a].rows()[r].key()].archetype_id == a
                        &&& old_entries[old_arch[a].rows()[r].key()].archetype_row == r
                    }
                &&& forall|a: int| 0 <= a < old_arch.len() ==> (#[trigger] old_arch[a]).wf()
                &&& forall|a: int, i: int|
                    0 <= a < old_arch.len() && 0 <= i < old_arch[a].columns().len() ==> (#[trigger] old_arch[a].columns()[i]).bytes().len()
                        == old_arch[a].rows().len() * old_arch[a].columns()[i].spec_item_size()
                &&& forall|a: int, i: int|
                    0 <= a < old_arch.len() && 0 <= i < old_arch[a].columns().len() ==> (#[trigger] old_arch[a].columns()[i]).added().len()
                        == old_arch[a].rows().len()
                &&& forall|a: int| 0 <= a < old_arch.len() ==> columns_follow_signature(#[trigger] old_arch[a])
                &&& arch.len() == old_arch.len()
                &&& forall|a: int| 0 <= a < arch.len() && a != l.archetype_id ==> #[trigger] arch[a] == old_arch[a]
                &&& arch[l.archetype_id as int].wf()
                &&& arch[l.archetype_id as int].rows() == rows.update(l.archetype_row as int, rows.last()).drop_last()
                &&& arch[l.archetype_id as int].columns().len() == old_arch[l.archetype_id as int].columns().len()
                &&& forall|i: int| 0 <= i < arch[l.archetype_id as int].columns().len() ==> row_removed(
                    old_arch[l.archetype_id as int].columns()[i],
                    #[trigger] arch[l.archetype_id as int].columns()[i],
                    l.archetype_row as nat,
                )
                &&& arch[l.archetype_id as int].column_of() == old_arch[l.archetype_id as int].column_of()
                &&& arch[l.archetype_id as int].spec_signature() == old_arch[l.archetype_id as int].spec_signature()
                &&& self.entries() == if l.archetype_row + 1 < rows.len() {
                    old_entries.insert(rows.last().key(), l)
                } else {
                    old_entries
                }
            }),
        ensures
            self.wf_without(entity.key()),
    {
        let arch = self.archetype_seq();
        let aid = l.archetype_id as int;
        let row = l.archetype_row as int;
        let rows = old_arch[aid].rows();
        let last = rows.len() - 1;
        let new_rows = arch[aid].rows();
        let ent = self.entries();
        assert(rows[row].key() == entity.key());
        if row < last {
            assert(ent == old_entries.insert(rows[last].key(), l));
        } else {
            assert(ent == old_entries);
        }
        // distinct keys along the rows of any archetype
        assert forall|r1: int, r2: int| 0 <= r1 < rows.len() && 0 <= r2 < rows.len() && r1 != r2 implies rows[r1].key() != rows[r2].key() by {
            assert(old_entries[rows[r1].key()].archetype_row == r1);
            assert(old_entries[rows[r2].key()].archetype_row == r2);
        }
        assert(ent.dom().finite());
        assert(ent.len() < self.slots()) by {
            if row < last {
                assert(old_entries.contains_key(rows[last].key()));
                assert(old_entries.insert(rows[last].key(), l).dom() =~= old_entries.dom());
            }
        }
        assert forall|k: KeyData| #[trigger] ent.contains_key(k) && k != entity.key() implies {
            let m = ent[k];
            &&& m.archetype_id < arch.len()
            &&& m.archetype_row < arch[m.archetype_id as int].rows().len()
            &&& arch[m.archetype_id as int].rows()[m.archetype_row as int].key() == k
        } by {
            assert(old_entries.contains_key(k));
            let m0 = old_entries[k];
            if row < last && k == rows[last].key() {
                assert(ent[k] == l);
                assert(new_rows[row] == rows[last]);
            } else {
                assert(k != entity.key());
                assert(ent[k] == m0);
                if m0.archetype_id as int == aid {
                    assert(m0.archetype_row as int != row);
                    if m0.archetype_row as int == last {
                        assert(rows[last].key() == k);
                        assert(row == last);
                    }
                    assert(new_rows[m0.archetype_row as int] == rows[m0.archetype_row as int]);
                }
            }
        }
        assert forall|a: int, r: int| 0 <= a < arch.len() && 0 <= r < arch[a].rows().len() implies {
            &&& ent.contains_key((#[trigger] arch[a].rows()[r]).key())
            &&& arch[a].rows()[r].key() != entity.key()
            &&& ent[arch[a].rows()[r].key()].archetype_id == a
            &&& ent[arch[a].rows()[r].key()].archetype_row == r
        } by {
            if a != aid {
                assert(arch[a] == old_arch[a]);
                let k = old_arch[a].rows()[r].key();
                assert(old_entries[k].archetype_id == a);
                assert(k != entity.key());
                if row < last {
                    assert(k != rows[last].key());
                }
            } else if r == row {
                assert(new_rows[r] == rows[last]);
                assert(row < last);
            } else {
                assert(new_rows[r] == rows[r]);
                assert(rows[r].key() != entity.key());
                if row < last {
                    assert(rows[r].key() != rows[last].key());
                }
            }
        }
        assert forall|a: int| 0 <= a < arch.len() implies (#[trigger] arch[a]).wf() by {
            if a != aid {
                assert(arch[a] == old_arch[a]);
            }
        }
        assert forall|a: int, i: int| 0 <= a < arch.len() && 0 <= i < arch[a].columns().len() implies (#[trigger] arch[a].columns()[i]).bytes().len()
            == arch[a].rows().len() * arch[a].columns()[i].spec_item_size() by {
            if a != aid {
                assert(arch[a] == old_arch[a]);
            } else {
                let c0 = old_arch[aid].columns()[i];
                let c1 = arch[aid].columns()[i];
                let size = c0.spec_item_size();
                assert(row_removed(c0, c1, row as nat));
                assert(new_rows.len() == rows.len() - 1);
                if size > 0 {
                    assert(c0.bytes().len() == rows.len() * size);
                    vstd::arithmetic::div_mod::lemma_div_multiples_vanish(rows.len() as int, size as int);
                    assert(c0.bytes().len() / size == rows.len());
                    assert(c1.bytes().len() == (rows.len() - 1) * size);
                } else {
                    assert(c0.bytes().len() == 0) by (nonlinear_arith)
                        requires
                            c0.bytes().len() == rows.len() * size,
                            size == 0,
                    ;
                    assert(new_rows.len() * size == 0) by (nonlinear_arith)
                        requires
                            size == 0,
                    ;
                }
            }
        }
        assert forall|a: int, i: int| 0 <= a < arch.len() && 0 <= i < arch[a].columns().len() implies (#[trigger] arch[a].columns()[i]).added().len()
            == arch[a].rows().len() by {
            if a != aid {
                assert(arch[a] == old_arch[a]);
            } else {
                assert(row_removed(old_arch[aid].columns()[i], arch[aid].columns()[i], row as nat));
            }
        }
        assert forall|a: int| 0 <= a < arch.len() implies columns_follow_signature(#[trigger] arch[a]) by {
            if a != aid {
                assert(arch[a] == old_arch[a]);
            }
        }
    }
}

/// A component handed over as raw data: its type, its size in bytes, and
/// its bytes.
pub type RawComponent = (TypeId, usize, Vec<u8>);

/// The types of a list of raw components, in order.
pub open spec fn item_types(items: Seq<RawComponent>) -> Seq<TypeId> {
    items.map_values(|c: RawComponent| c.0)
}

/// The bytes of the component in row `row` of a column.
pub open spec fn row_bytes(c: ComponentColumn, row: nat) -> Seq<u8> {
    c.bytes().subrange((row * c.spec_item_size()) as int, (row * c.spec_item_size() + c.spec_item_size()) as int)
}

/// Raw components that can make up one entity: no type twice, each with as
/// many bytes as its size, and sizes small enough that any row offset fits a
/// `usize`.
pub open spec fn valid_items(items: Seq<RawComponent>) -> bool {
    &&& forall|i: int, j: int| 0 <= i < j < items.len() ==> items[i].0 != items[j].0
    &&& forall|i: int| 0 <= i < items.len() ==> (#[trigger] items[i]).2@.len() == items[i].1
    &&& forall|i: int| 0 <= i < items.len() ==> (#[trigger] items[i]).1 * (u32::MAX as int) <= usize::MAX
}

impl World {
    /// An archetype whose signature is these types already has a column of
    /// the same size for each of them.
    pub open spec fn sizes_agree(&self, items: Seq<RawComponent>) -> bool {
        forall|a: int, i: int|
            0 <= a < self.archetype_seq().len() && self.archetype_seq()[a].spec_signature()@ == item_types(items) && 0 <= i
                < items.len() ==> (#[trigger] self.archetype_seq()[a].columns()[i]).spec_item_size() == items[i].1
    }

    /// An archetype never has more rows than there are live entities.
    proof fn lemma_rows_bounded(&self, a: int)
        requires
            self.wf(),
            0 <= a < self.archetype_seq().len(),
        ensures
            self.archetype_seq()[a].rows().len() <= self.entries().len(),
    {
        let rows = self.archetype_seq()[a].rows();
        let ks = rows.map_values(|e: EntityId| e.key());
        assert forall|i: int, j: int| 0 <= i < ks.len() && 0 <= j < ks.len() && i != j implies ks[i] != ks[j] by {
            assert(self.entries()[rows[i].key()].archetype_row == i);
            assert(self.entries()[rows[j].key()].archetype_row == j);
        }
        assert(ks.no_duplicates());
        ks.unique_seq_to_set();
        assert forall|k: KeyData| ks.to_set().contains(k) implies self.entries().dom().contains(k) by {
            let i = choose|i: int| 0 <= i < ks.len() && ks[i] == k;
            assert(self.entries().contains_key(rows[i].key()));
        }
        vstd::set_lib::lemma_len_subset(ks.to_set(), self.entries().dom());
    }

    /// The first archetype whose signature is these types, if any.
    fn find_archetype(&self, items: &Vec<RawComponent>) -> (r: Option<usize>)
        ensures
            match r {
                Some(a) => a < self.archetype_seq().len() && self.archetype_seq()[a as int].spec_signature()@ == item_types(items@),
                None => forall|a: int| 0 <= a < self.archetype_seq().len() ==> self.archetype_seq()[a].spec_signature()@ != item_types(items@),
            },
    {
        let mut a: usize = 0;
        while a < self.archetypes.len()
            invariant
                a <= self.archetype_seq().len(),
                forall|b: int| 0 <= b < a ==> self.archetype_seq()[b].spec_signature()@ != item_types(items@),
            decreases self.archetype_seq().len() - a,
        {
            let sig = self.archetypes[a].signature();
            if sig.len() == items.len() {
                let mut i: usize = 0;
                let mut same = true;
                while i < sig.len()
                    invariant
                        sig@.len() == items@.len(),
                        i <= sig@.len(),
                        same ==> forall|j: int| 0 <= j < i ==> sig@[j] == items@[j].0,
                        !same ==> sig@ != item_types(items@),
                    decreases sig@.len() - i,
                {
                    if !type_id_eq(&sig[i], &items[i].0) {
                        same = false;
                        assert(sig@[i as int] != item_types(items@)[i as int]);
                    }
                    i = i + 1;
                }
                if same {
                    assert(sig@ =~= item_types(items@));
                    return Some(a);
                }
            }
            a = a + 1;
        }
        None
    }

    /// Add an archetype for these types, with one empty column per item of
    /// the item's size, in item order.
    fn create_archetype(&mut self, items: &Vec<RawComponent>) -> (a: usize)
        requires
            old(self).wf(),
            valid_items(items@),
        ensures
            final(self).wf(),
            a == old(self).archetype_seq().len(),
            final(self).archetype_seq() == old(self).archetype_seq().push(final(self).archetype_seq()[a as int]),
            final(self).archetype_seq()[a as int].spec_signature()@ == item_types(items@),
            final(self).archetype_seq()[a as int].rows().len() == 0,
            forall|i: int| 0 <= i < items@.len() ==> (#[trigger] final(self).archetype_seq()[a as int].columns()[i]).spec_item_size() == items@[i].1,
            final(self).entries() == old(self).entries(),
            final(self).slots() == old(self).slots(),
            final(self).recycled() == old(self).recycled(),
            final(self).spec_tick() == old(self).spec_tick(),
    {
        let mut sig: Vec<TypeId> = Vec::new();
        let mut k: usize = 0;
        while k < items.len()
            invariant
                k <= items@.len(),
                sig@ == item_types(items@).take(k as int),
            decreases items@.len() - k,
        {
            sig.push(items[k].0);
            proof {
                assert(item_types(items@).take(k + 1) =~= item_types(items@).take(k as int).push(items@[k as int].0));
            }
            k = k + 1;
        }
        proof {
            assert(item_types(items@).take(items@.len() as int) =~= item_types(items@));
        }
        let mut archetype = Archetype::new(sig);
        let mut i: usize = 0;
        while i < items.len()
            invariant
                valid_items(items@),
                i <= items@.len(),
                archetype.wf(),
                archetype.spec_signature()@ == item_types(items@),
                archetype.rows().len() == 0,
                archetype.columns().len() == i,
                forall|j: int| 0 <= j < i ==> (#[trigger] archetype.columns()[j]).spec_item_size() == items@[j].1
                    && archetype.columns()[j].bytes().len() == 0 && archetype.columns()[j].added().len() == 0,
                forall|j: int| 0 <= j < i ==> archetype.column_of().contains_key(#[trigger] items@[j].0)
                    && archetype.column_of()[items@[j].0] == j,
                forall|t: TypeId| #[trigger] archetype.column_of().contains_key(t) ==> exists|j: int| 0 <= j < i && items@[j].0 == t,
            decreases items@.len() - i,
        {
            let column = ComponentColumn::with_item_size(items[i].1);
            proof {
                if archetype.column_of().contains_key(items@[i as int].0) {
                    let j = choose|j: int| 0 <= j < i && items@[j].0 == items@[i as int].0;
                }
            }
            archetype.add_column_raw(items[i].0, column);
            proof {
                assert forall|t: TypeId| #[trigger] archetype.column_of().contains_key(t) implies exists|j: int| 0 <= j < i + 1 && items@[j].0 == t by {
                    if t != items@[i as int].0 {
                        let j = choose|j: int| 0 <= j < i && items@[j].0 == t;
                        assert(0 <= j < i + 1 && items@[j].0 == t);
                    } else {
                        assert(items@[i as int].0 == t);
                    }
                }
            }
            i = i + 1;
        }
        archetype.mark_columns_initialized();
        let ghost before = self.archetypes@;
        self.archetypes.push(archetype);
        let a = self.archetypes.len() - 1;
        proof {
            let arch = self.archetype_seq();
            assert(arch == before.push(archetype));
            assert forall|k: KeyData| #[trigger] self.entries().contains_key(k) implies {
                let l = self.entries()[k];
                &&& l.archetype_id < arch.len()
                &&& l.archetype_row < arch[l.archetype_id as int].rows().len()
                &&& arch[l.archetype_id as int].rows()[l.archetype_row as int].key() == k
            } by {
                assert(arch[self.entries()[k].archetype_id as int] == before[self.entries()[k].archetype_id as int]);
            }
            assert forall|b: int, r: int| 0 <= b < arch.len() && 0 <= r < arch[b].rows().len() implies {
                &&& self.entries().contains_key((#[trigger] arch[b].rows()[r]).key())
                &&& self.entries()[arch[b].rows()[r].key()].archetype_id == b
                &&& self.entries()[arch[b].rows()[r].key()].archetype_row == r
            } by {
                assert(arch[b] == before[b]);
            }
            assert forall|b: int| 0 <= b < arch.len() implies (#[trigger] arch[b]).wf() by {
                if b < before.len() {
                    assert(arch[b] == before[b]);
                }
            }
            assert forall|b: int, j: int| 0 <= b < arch.len() && 0 <= j < arch[b].columns().len() implies (#[trigger] arch[b].columns()[j]).bytes().len()
                == arch[b].rows().len() * arch[b].columns()[j].spec_item_size() by {
                if b < before.len() {
                    assert(arch[b] == before[b]);
                } else {
                    assert(arch[b] == archetype);
                    assert(archetype.columns()[j].bytes().len() == 0);
                    assert(archetype.rows().len() == 0);
                    assert(arch[b].rows().len() * arch[b].columns()[j].spec_item_size() == 0) by (nonlinear_arith)
                        requires
                            arch[b].rows().len() == 0,
                    ;
                }
            }
            assert forall|b: int, j: int| 0 <= b < arch.len() && 0 <= j < arch[b].columns().len() implies (#[trigger] arch[b].columns()[j]).added().len()
                == arch[b].rows().len() by {
                if b < before.len() {
                    assert(arch[b] == before[b]);
                } else {
                    assert(arch[b] == archetype);
                }
            }
            assert forall|b: int| 0 <= b < arch.len() implies columns_follow_signature(#[trigger] arch[b]) by {
                if b < before.len() {
                    assert(arch[b] == before[b]);
                } else {
                    assert forall|j: int| 0 <= j < arch[b].spec_signature()@.len() implies arch[b].column_of().contains_key(#[trigger] arch[b].spec_signature()@[j])
                        && arch[b].column_of()[arch[b].spec_signature()@[j]] == j by {
                        assert(arch[b].spec_signature()@[j] == items@[j].0);
                    }
                    assert forall|t: TypeId| #[trigger] arch[b].column_of().contains_key(t) implies arch[b].spec_signature()@.contains(t) by {
                        let j = choose|j: int| 0 <= j < items@.len() && items@[j].0 == t;
                        assert(arch[b].spec_signature()@[j] == t);
                    }
                }
            }
        }
        a
    }
}

impl World {
    /// Spawn an entity from raw components: it goes to a new last row of the
    /// archetype whose signature is the components' types (made when there is
    /// none), each column receives the component's bytes, and the row's ticks
    /// are the world's tick. Nothing else stored changes.
    pub fn spawn_raw(&mut self, items: Vec<RawComponent>) -> (e: EntityId)
        requires
            old(self).wf(),
            old(self).slots() < u32::MAX,
            valid_items(items@),
            old(self).sizes_agree(items@),
        ensures
            final(self).wf(),
            !old(self).live(e),
            final(self).live(e),
            final(self).entries() == old(self).entries().insert(e.key(), final(self).location(e)),
            ({
                let l = final(self).location(e);
                let a = l.archetype_id as int;
                let arch = final(self).archetype_seq();
                let before = old(self).archetype_seq();
                &&& a <= before.len()
                &&& arch.len() == if a < before.len() { before.len() } else { before.len() + 1 }
                &&& forall|b: int| 0 <= b < before.len() && b != a ==> #[trigger] arch[b] == before[b]
                &&& arch[a].spec_signature()@ == item_types(items@)
                &&& arch[a].rows() == (if a < before.len() { before[a].rows() } else { Seq::<EntityId>::empty() }).push(e)
                &&& l.archetype_row + 1 == arch[a].rows().len()
                &&& arch[a].columns().len() == items@.len()
                &&& forall|i: int| 0 <= i < items@.len() ==> row_bytes(#[trigger] arch[a].columns()[i], l.archetype_row as nat) == items@[i].2@
                &&& a < before.len() ==> forall|i: int, r: nat|
                    0 <= i < items@.len() && r < l.archetype_row ==> #[trigger] row_bytes(arch[a].columns()[i], r) == row_bytes(
                        before[a].columns()[i],
                        r,
                    )
                &&& forall|i: int| 0 <= i < items@.len() ==> {
                    let c = #[trigger] arch[a].columns()[i];
                    &&& c.added() == (if a < before.len() { before[a].columns()[i].added() } else { Seq::<u32>::empty() }).push(old(self).spec_tick())
                    &&& c.changed() == (if a < before.len() { before[a].columns()[i].changed() } else { Seq::<u32>::empty() }).push(old(self).spec_tick())
                }
            }),
            forall|i: int| 0 <= i < items@.len() ==> final(self).component_ticks(e, #[trigger] items@[i].0) == Some((old(self).spec_tick(), old(self).spec_tick())),
            World::others_ticks_kept(*old(self), *final(self), e.key()),
            final(self).recycled() == if old(self).recycled() > 0 { old(self).recycled() - 1 } else { 0 },
            final(self).spec_tick() == old(self).spec_tick(),
    {
        let aid = match self.find_archetype(&items) {
            Some(a) => a,
            None => self.create_archetype(&items),
        };
        let ghost w1 = self.archetype_seq();
        let ghost e1 = self.entries();
        let ghost base = w1[aid as int];
        proof {
            assert(base.spec_signature()@ == item_types(items@));
            assert(columns_follow_signature(base));
            assert forall|i: int| 0 <= i < items@.len() implies (#[trigger] base.columns()[i]).spec_item_size() == items@[i].1 by {
                if aid < old(self).archetype_seq().len() {
                    assert(w1 == old(self).archetype_seq());
                    assert(old(self).sizes_agree(items@));
                }
            }
        }
        let key = table_insert(&mut self.entity_locations, EntityLocation { archetype_id: usize::MAX, archetype_row: usize::MAX });
        let entity = EntityId::from(key);
        if self.recycled_entities > 0 {
            self.recycled_entities = self.recycled_entities - 1;
        }
        proof {
            let arch = self.archetype_seq();
            let ent = self.entries();
            assert(entity.key() == key);
            assert forall|k2: KeyData| #[trigger] ent.contains_key(k2) && k2 != key implies {
                let l = ent[k2];
                &&& l.archetype_id < arch.len()
                &&& l.archetype_row < arch[l.archetype_id as int].rows().len()
                &&& arch[l.archetype_id as int].rows()[l.archetype_row as int].key() == k2
            } by {
                assert(e1.contains_key(k2));
            }
            assert forall|b: int, r: int| 0 <= b < arch.len() && 0 <= r < arch[b].rows().len() implies {
                &&& ent.contains_key((#[trigger] arch[b].rows()[r]).key())
                &&& arch[b].rows()[r].key() != key
                &&& ent[arch[b].rows()[r].key()].archetype_id == b
                &&& ent[arch[b].rows()[r].key()].archetype_row == r
            } by {
                assert(e1.contains_key(arch[b].rows()[r].key()));
            }
        }
        let row = self.attach(entity, &items, aid);
        proof {
            let l = self.location(entity);
            assert(l == EntityLocation { archetype_id: aid, archetype_row: row });
            assert(self.entries() =~= old(self).entries().insert(entity.key(), l));
            if aid < old(self).archetype_seq().len() {
                assert(w1 == old(self).archetype_seq());
            } else {
                assert(base.rows() == Seq::<EntityId>::empty());
                assert forall|i: int| 0 <= i < items@.len() implies (#[trigger] base.columns()[i]).added() =~= Seq::<u32>::empty()
                    && base.columns()[i].changed() =~= Seq::<u32>::empty() by {
                    assert(base.columns()[i].added().len() == base.rows().len());
                    assert(base.wf());
                    assert(base.columns()[i].ticks_match());
                }
            }
            let na = self.archetype_seq()[aid as int];
            assert forall|i: int| 0 <= i < items@.len() implies self.component_ticks(entity, #[trigger] items@[i].0) == Some((old(self).spec_tick(), old(self).spec_tick())) by {
                assert(base.spec_signature()@[i] == items@[i].0);
                assert(na.column_of()[items@[i].0] == i);
                assert(base.columns()[i].added().len() == row);
                assert(na.columns()[i].added()[row as int] == old(self).spec_tick());
                assert(na.columns()[i].changed()[row as int] == old(self).spec_tick());
            }
            assert forall|e2: EntityId, t: TypeId| e2.key() != entity.key() implies #[trigger] self.component_ticks(e2, t)
                == old(self).component_ticks(e2, t) by {
                if old(self).live(e2) {
                    let m0 = old(self).location(e2);
                    assert(self.location(e2) == m0);
                    if m0.archetype_id == aid {
                        let a0 = old(self).archetype_seq()[aid as int];
                        assert(w1 == old(self).archetype_seq());
                        if a0.column_of().contains_key(t) {
                            let ci = a0.column_of()[t] as int;
                            assert(a0.column_of()[t] < a0.columns().len());
                            assert(m0.archetype_row < row);
                            assert(na.columns()[ci].added()[m0.archetype_row as int] == a0.columns()[ci].added()[m0.archetype_row as int]);
                            assert(na.columns()[ci].changed()[m0.archetype_row as int] == a0.columns()[ci].changed()[m0.archetype_row as int]);
                        }
                    }
                }
            }
        }
        entity
    }
}

/// After removing row `row` of `n` rows by swap-removal, each remaining row
/// holds the bytes it held before, except row `row`, which holds what the
/// last row held.
proof fn lemma_swap_removed_rows(c0: ComponentColumn, c1: ComponentColumn, row: nat, n: nat)
    requires
        row_removed(c0, c1, row),
        c0.bytes().len() == n * c0.spec_item_size(),
        row < n,
    ensures
        forall|r: nat| r + 1 < n ==> #[trigger] row_bytes(c1, r) == if r == row {
            row_bytes(c0, (n - 1) as nat)
        } else {
            row_bytes(c0, r)
        },
{
    let size = c0.spec_item_size();
    assert forall|r: nat| r + 1 < n implies #[trigger] row_bytes(c1, r) == if r == row {
        row_bytes(c0, (n - 1) as nat)
    } else {
        row_bytes(c0, r)
    } by {
        if size == 0 {
            assert(row_bytes(c1, r) =~= Seq::<u8>::empty());
            assert(row_bytes(c0, r) =~= Seq::<u8>::empty());
            assert(row_bytes(c0, (n - 1) as nat) =~= Seq::<u8>::empty());
        } else {
            let last = (n - 1) as nat;
            vstd::arithmetic::div_mod::lemma_div_multiples_vanish(n as int, size as int);
            assert(c0.bytes().len() / size == n);
            assert(c1.bytes() == item_swap_removed(c0.bytes(), size, row));
            assert(c1.bytes().len() == last * size);
            assert(r * size + size <= last * size) by (nonlinear_arith)
                requires
                    r + 1 <= last,
            ;
            assert(last * size + size == n * size) by (nonlinear_arith)
                requires
                    last + 1 == n,
            ;
            if r == row {
                assert(row < last);
                assert forall|k: int| 0 <= k < size implies #[trigger] row_bytes(c1, r)[k] == row_bytes(c0, last)[k] by {
                    assert(c1.bytes()[(r * size + k) as int] == c0.bytes()[last * size + k]);
                }
                assert(row_bytes(c1, r) =~= row_bytes(c0, last));
            } else {
                assert forall|k: int| 0 <= k < size implies #[trigger] row_bytes(c1, r)[k] == row_bytes(c0, r)[k] by {
                    let i = r * size + k;
                    assert(!(row * size <= i < row * size + size)) by (nonlinear_arith)
                        requires
                            i == r * size + k,
                            0 <= k < size,
                            r != row,
                    ;
                    assert(c1.bytes()[i] == c0.bytes()[i]);
                }
                assert(row_bytes(c1, r) =~= row_bytes(c0, r));
            }
        }
    }
}

impl World {
    /// Despawn entity immediately: its row is removed by moving the
    /// archetype's last row into it, and the entity moved there gets its new
    /// location. Fails with `EntityNotFound` exactly when the entity is not
    /// alive, and then nothing changes.
    pub fn despawn(&mut self, entity: EntityId) -> (r: Result<()>)
        requires
            old(self).wf(),
            old(self).recycled() < usize::MAX,
        ensures
            final(self).wf(),
            r is Ok <==> old(self).live(entity),
            r is Err ==> r == Err::<(), EcsError>(EcsError::EntityNotFound) && final(self).entries() == old(self).entries()
                && final(self).archetype_seq() == old(self).archetype_seq() && final(self).recycled() == old(self).recycled(),
            r is Ok ==> ({
                let l = old(self).location(entity);
                let rows = old(self).archetype_seq()[l.archetype_id as int].rows();
                let arch = final(self).archetype_seq()[l.archetype_id as int];
                &&& final(self).archetype_seq().len() == old(self).archetype_seq().len()
                &&& forall|a: int| 0 <= a < old(self).archetype_seq().len() && a != l.archetype_id ==> #[trigger] final(self).archetype_seq()[a] == old(self).archetype_seq()[a]
                &&& arch.rows() == rows.update(l.archetype_row as int, rows.last()).drop_last()
                &&& arch.columns().len() == old(self).archetype_seq()[l.archetype_id as int].columns().len()
                &&& forall|i: int| 0 <= i < arch.columns().len() ==> row_removed(
                    old(self).archetype_seq()[l.archetype_id as int].columns()[i],
                    #[trigger] arch.columns()[i],
                    l.archetype_row as nat,
                )
                &&& final(self).entries() == if l.archetype_row + 1 < rows.len() {
                    old(self).entries().remove(entity.key()).insert(rows.last().key(), l)
                } else {
                    old(self).entries().remove(entity.key())
                }
                &&& final(self).recycled() == old(self).recycled() + 1
            }),
            r is Ok ==> !final(self).live(entity),
            World::others_kept(*old(self), *final(self), entity.key()),
            World::others_ticks_kept(*old(self), *final(self), entity.key()),
    {
        if !self.is_alive(entity) {
            return Err(EcsError::EntityNotFound);
        }
        let ghost old_entries = self.entries();
        let ghost l = old_entries[entity.key()];
        let ghost rows = self.archetype_seq()[l.archetype_id as int].rows();
        let location = self.detach(entity);
        let ghost mid = self.entries();
        table_remove(&mut self.entity_locations, entity.data());
        self.recycled_entities = self.recycled_entities + 1;
        proof {
            let ent = self.entries();
            assert(ent == mid.remove(entity.key()));
            if l.archetype_row + 1 < rows.len() {
                let lk = rows.last().key();
                assert(lk != entity.key()) by {
                    assert(old(self).entries()[lk].archetype_row == rows.len() - 1);
                }
                assert(mid.remove(entity.key()) =~= old_entries.remove(entity.key()).insert(lk, l));
            }
            assert(ent.dom().finite());
            assert(ent.len() < self.slots()) by {
                assert(mid.dom().finite());
                assert(ent.len() == mid.len() - 1);
            }
            let arch = self.archetype_seq();
            assert forall|k: KeyData| #[trigger] ent.contains_key(k) implies {
                let m = ent[k];
                &&& m.archetype_id < arch.len()
                &&& m.archetype_row < arch[m.archetype_id as int].rows().len()
                &&& arch[m.archetype_id as int].rows()[m.archetype_row as int].key() == k
            } by {
                assert(mid.contains_key(k) && k != entity.key());
            }
            assert forall|a: int, r: int| 0 <= a < arch.len() && 0 <= r < arch[a].rows().len() implies {
                &&& ent.contains_key((#[trigger] arch[a].rows()[r]).key())
                &&& ent[arch[a].rows()[r].key()].archetype_id == a
                &&& ent[arch[a].rows()[r].key()].archetype_row == r
            } by {
                assert(arch[a].rows()[r].key() != entity.key());
            }
            let w0 = *old(self);
            let w2 = *self;
            let aa = l.archetype_id as int;
            let last = rows.len() - 1;
            assert forall|e: EntityId, t: TypeId| e.key() != entity.key() implies w2.live(e) == w0.live(e)
                && #[trigger] w2.component_bytes(e, t) == w0.component_bytes(e, t) && w2.component_ticks(e, t) == w0.component_ticks(e, t) by {
                assert(w2.entries().contains_key(e.key()) == w0.entries().contains_key(e.key()));
                if w0.live(e) {
                    let m0 = w0.location(e);
                    let a0 = w0.archetype_seq()[m0.archetype_id as int];
                    let m2 = w2.location(e);
                    if m0.archetype_id as int == aa {
                        let a1 = w2.archetype_seq()[aa];
                        if a0.column_of().contains_key(t) {
                            let ci = a0.column_of()[t] as int;
                            let c0 = a0.columns()[ci];
                            let c1 = a1.columns()[ci];
                            assert(a0.column_of()[t] < a0.columns().len());
                            assert(row_removed(c0, c1, l.archetype_row as nat));
                            assert(c0.bytes().len() == rows.len() * c0.spec_item_size());
                            lemma_swap_removed_rows(c0, c1, l.archetype_row as nat, rows.len());
                            assert(c0.added().len() == rows.len());
                            assert(c0.ticks_match()) by {
                                assert(a0.wf());
                            }
                            assert(m0.archetype_row != l.archetype_row) by {
                                assert(rows[m0.archetype_row as int].key() == e.key());
                            }
                            if m0.archetype_row as int == last && l.archetype_row < last {
                                assert(rows.last().key() == e.key());
                                assert(m2 == l);
                                assert(c1.added()[l.archetype_row as int] == c0.added().last());
                                assert(c1.changed()[l.archetype_row as int] == c0.changed().last());
                            } else {
                                assert(m2 == m0);
                                assert(m0.archetype_row < last) by {
                                    if m0.archetype_row as int == last {
                                        assert(l.archetype_row as int == last);
                                    }
                                }
                                assert(c1.added()[m0.archetype_row as int] == c0.added()[m0.archetype_row as int]);
                                assert(c1.changed()[m0.archetype_row as int] == c0.changed()[m0.archetype_row as int]);
                            }
                        } else {
                            if m0.archetype_row as int == last && l.archetype_row < last {
                                assert(rows.last().key() == e.key());
                            }
                        }
                    } else {
                        assert(m2 == m0);
                        assert(w2.archetype_seq()[m0.archetype_id as int] == a0);
                    }
                }
            }
        }
        Ok(())
    }
}

impl World {
    /// Put an entity whose key is in use but that no row holds into a new
    /// last row of archetype `aid`, write its components there, and record
    /// its location.
    fn attach(&mut self, entity: EntityId, items: &Vec<RawComponent>, aid: usize) -> (row: usize)
        requires
            old(self).wf_without(entity.key()),
            aid < old(self).archetype_seq().len(),
            valid_items(items@),
            old(self).archetype_seq()[aid as int].spec_signature()@ == item_types(items@),
            forall|i: int| 0 <= i < items@.len() ==> (#[trigger] old(self).archetype_seq()[aid as int].columns()[i]).spec_item_size() == items@[i].1,
        ensures
            final(self).wf(),
            row == old(self).archetype_seq()[aid as int].rows().len(),
            final(self).entries() == old(self).entries().insert(entity.key(), EntityLocation { archetype_id: aid, archetype_row: row }),
            final(self).archetype_seq().len() == old(self).archetype_seq().len(),
            forall|b: int| 0 <= b < old(self).archetype_seq().len() && b != aid ==> #[trigger] final(self).archetype_seq()[b] == old(self).archetype_seq()[b],
            final(self).archetype_seq()[aid as int].rows() == old(self).archetype_seq()[aid as int].rows().push(entity),
            final(self).archetype_seq()[aid as int].spec_signature() == old(self).archetype_seq()[aid as int].spec_signature(),
            final(self).archetype_seq()[aid as int].column_of() == old(self).archetype_seq()[aid as int].column_of(),
            final(self).archetype_seq()[aid as int].columns().len() == items@.len(),
            forall|i: int| 0 <= i < items@.len() ==> (#[trigger] final(self).archetype_seq()[aid as int].columns()[i]).spec_item_size() == items@[i].1,
            forall|i: int| 0 <= i < items@.len() ==> row_bytes(#[trigger] final(self).archetype_seq()[aid as int].columns()[i], row as nat) == items@[i].2@,
            forall|i: int| 0 <= i < items@.len() ==> {
                let c = #[trigger] final(self).archetype_seq()[aid as int].columns()[i];
                let o = old(self).archetype_seq()[aid as int].columns()[i];
                &&& c.added() == o.added().push(old(self).spec_tick())
                &&& c.changed() == o.changed().push(old(self).spec_tick())
            },
            forall|i: int, r: nat| 0 <= i < items@.len() && r < row ==> #[trigger] row_bytes(final(self).archetype_seq()[aid as int].columns()[i], r) == row_bytes(
                old(self).archetype_seq()[aid as int].columns()[i],
                r,
            ),
            final(self).slots() == old(self).slots(),
            final(self).recycled() == old(self).recycled(),
            final(self).spec_tick() == old(self).spec_tick(),
    {
        let ghost w1 = self.archetype_seq();
        let ghost e1 = self.entries();
        let ghost base = w1[aid as int];
        let key = entity.data();
        proof {
            self.lemma_rows_bounded_without(entity.key(), aid as int);
            assert(columns_follow_signature(base));
        }
        let ghost s1 = self.slots();
        let ghost r1 = self.recycled_entities;
        let tick = self.tick;
        let row = self.archetypes[aid].allocate_row(entity, tick);
        let ghost a1 = self.archetypes@[aid as int];
        proof {
            assert(row == base.rows().len());
            assert(row < u32::MAX);
        }
        let mut i: usize = 0;
        while i < items.len()
            invariant
                valid_items(items@),
                aid < w1.len(),
                base == w1[aid as int],
                row == base.rows().len(),
                row < u32::MAX,
                self.archetypes@.len() == w1.len(),
                forall|b: int| 0 <= b < w1.len() && b != aid ==> #[trigger] self.archetypes@[b] == w1[b],
                i <= items@.len(),
                items@.len() == base.columns().len(),
                self.archetypes@[aid as int].wf(),
                self.archetypes@[aid as int].rows() == base.rows().push(entity),
                self.archetypes@[aid as int].column_of() == base.column_of(),
                self.archetypes@[aid as int].spec_signature() == base.spec_signature(),
                self.archetypes@[aid as int].columns().len() == base.columns().len(),
                columns_follow_signature(base),
                base.spec_signature()@ == item_types(items@),
                forall|j: int| 0 <= j < items@.len() ==> (#[trigger] base.columns()[j]).spec_item_size() == items@[j].1,
                forall|j: int| 0 <= j < items@.len() ==> (#[trigger] base.columns()[j]).bytes().len() == row * items@[j].1,
                forall|j: int| 0 <= j < items@.len() ==> {
                    let c = #[trigger] self.archetypes@[aid as int].columns()[j];
                    &&& c.spec_item_size() == items@[j].1
                    &&& c.bytes().len() == if j < i { (row + 1) * items@[j].1 } else { row * items@[j].1 }
                    &&& c.bytes().subrange(0, row * items@[j].1) == base.columns()[j].bytes()
                    &&& j < i ==> row_bytes(c, row as nat) == items@[j].2@
                    &&& c.added() == base.columns()[j].added().push(tick)
                    &&& c.changed() == base.columns()[j].changed().push(tick)
                },
                tick == old(self).tick,
                self.entries() == e1,
                self.slots() == s1,
                self.recycled_entities == r1,
                self.tick == old(self).tick,
            decreases items@.len() - i,
        {
            let ghost before_col = self.archetypes@[aid as int].columns()[i as int];
            let ghost ai = self.archetypes@[aid as int];
            proof {
                assert(base.column_of()[base.spec_signature()@[i as int]] == i);
                assert(base.spec_signature()@[i as int] == items@[i as int].0);
                let size = items@[i as int].1;
                assert((row + 1) * size <= usize::MAX) by (nonlinear_arith)
                    requires
                        row < u32::MAX,
                        size * (u32::MAX as int) <= usize::MAX,
                ;
            }
            match self.archetypes[aid].column_index(items[i].0) {
                Some(idx) => {
                    proof {
                        assert(idx == i);
                    }
                    match self.archetypes[aid].get_column_mut_by_index(idx) {
                        Some(col) => {
                            proof {
                                assert(col.spec_item_size() == items@[i as int].1);
                                assert(row * col.spec_item_size() + col.spec_item_size() == (row + 1) * items@[i as int].1) by (nonlinear_arith)
                                    requires
                                        col.spec_item_size() == items@[i as int].1,
                                ;
                            }
                            col.write_item(row, items[i].2.as_slice());
                        },
                        None => {},
                    }
                },
                None => {},
            }
            proof {
                let c = self.archetypes@[aid as int].columns()[i as int];
                let size = items@[i as int].1;
                assert(self.archetypes@[aid as int].columns() == ai.columns().update(i as int, c));
                assert((row + 1) * size == row * size + size) by (nonlinear_arith);
                assert(c.bytes().subrange(0, row * size) =~= base.columns()[i as int].bytes()) by {
                    assert forall|k: int| 0 <= k < row * size implies c.bytes()[k] == base.columns()[i as int].bytes()[k] by {
                        assert(before_col.bytes().subrange(0, row * size) == base.columns()[i as int].bytes());
                        assert(before_col.bytes()[k] == base.columns()[i as int].bytes()[k]);
                    }
                }
                assert(row_bytes(c, row as nat) =~= items@[i as int].2@);
                assert(c.ticks_match());
                assert forall|t: TypeId| #[trigger] self.archetypes@[aid as int].column_of().contains_key(t) implies self.archetypes@[aid as int].column_of()[t]
                    < self.archetypes@[aid as int].columns().len() by {
                    assert(ai.column_of().contains_key(t));
                }
                assert forall|j: int| 0 <= j < self.archetypes@[aid as int].columns().len() implies (#[trigger] self.archetypes@[aid as int].columns()[j]).ticks_match() by {
                    if j != i {
                        assert(self.archetypes@[aid as int].columns()[j] == ai.columns()[j]);
                        assert(ai.columns()[j].ticks_match());
                    }
                }
                assert forall|j: int| 0 <= j < items@.len() && j != i implies #[trigger] self.archetypes@[aid as int].columns()[j] == ai.columns()[j] by {}
            }
            i = i + 1;
        }
        let location = EntityLocation { archetype_id: aid, archetype_row: row };
        table_set(&mut self.entity_locations, key, location);
        proof {
            let arch = self.archetype_seq();
            let ent = self.entries();
            let na = arch[aid as int];
            assert(ent == e1.insert(key, location));
            assert(entity.key() == key);
            // distinct keys along the rows of the target archetype
            assert forall|k: KeyData| #[trigger] ent.contains_key(k) implies {
                let l = ent[k];
                &&& l.archetype_id < arch.len()
                &&& l.archetype_row < arch[l.archetype_id as int].rows().len()
                &&& arch[l.archetype_id as int].rows()[l.archetype_row as int].key() == k
            } by {
                if k == key {
                    assert(na.rows()[row as int] == entity);
                } else {
                    assert(e1.contains_key(k));
                    let l = e1[k];
                    if l.archetype_id == aid {
                        assert(na.rows()[l.archetype_row as int] == base.rows()[l.archetype_row as int]);
                    } else {
                        assert(arch[l.archetype_id as int] == w1[l.archetype_id as int]);
                    }
                }
            }
            assert forall|b: int, r: int| 0 <= b < arch.len() && 0 <= r < arch[b].rows().len() implies {
                &&& ent.contains_key((#[trigger] arch[b].rows()[r]).key())
                &&& ent[arch[b].rows()[r].key()].archetype_id == b
                &&& ent[arch[b].rows()[r].key()].archetype_row == r
            } by {
                if b == aid {
                    if r == row {
                        assert(arch[b].rows()[r] == entity);
                    } else {
                        assert(arch[b].rows()[r] == base.rows()[r]);
                        assert(w1[aid as int].rows()[r] == base.rows()[r]);
                        assert(e1.contains_key(base.rows()[r].key()));
                        assert(base.rows()[r].key() != key);
                    }
                } else {
                    assert(arch[b] == w1[b]);
                    assert(e1.contains_key(w1[b].rows()[r].key()));
                    assert(w1[b].rows()[r].key() != key);
                }
            }
            assert forall|b: int| 0 <= b < arch.len() implies (#[trigger] arch[b]).wf() by {
                if b != aid {
                    assert(arch[b] == w1[b]);
                }
            }
            assert forall|b: int, j: int| 0 <= b < arch.len() && 0 <= j < arch[b].columns().len() implies (#[trigger] arch[b].columns()[j]).bytes().len()
                == arch[b].rows().len() * arch[b].columns()[j].spec_item_size() by {
                if b != aid {
                    assert(arch[b] == w1[b]);
                } else {
                    let size = items@[j].1;
                    assert(na.columns()[j].bytes().len() == (row + 1) * size);
                }
            }
            assert forall|b: int| 0 <= b < arch.len() implies columns_follow_signature(#[trigger] arch[b]) by {
                if b != aid {
                    assert(arch[b] == w1[b]);
                }
            }
            assert forall|b: int, j: int| 0 <= b < arch.len() && 0 <= j < arch[b].columns().len() implies (#[trigger] arch[b].columns()[j]).added().len()
                == arch[b].rows().len() by {
                if b != aid {
                    assert(arch[b] == w1[b]);
                } else {
                    assert(base.columns()[j].added().len() == base.rows().len());
                }
            }
            assert(ent.len() < self.slots()) by {
                assert(ent.dom() =~= e1.dom());
            }
            assert forall|j: int, r: nat| 0 <= j < items@.len() && r < row implies #[trigger] row_bytes(na.columns()[j], r) == row_bytes(
                base.columns()[j],
                r,
            ) by {
                let size = items@[j].1;
                let c = na.columns()[j];
                assert(r * size + size <= row * size) by (nonlinear_arith)
                    requires
                        r < row,
                ;
                assert(c.bytes().len() == (row + 1) * size);
                assert((row + 1) * size == row * size + size) by (nonlinear_arith);
                assert(c.bytes().subrange(0, row * size) == base.columns()[j].bytes());
                assert(base.columns()[j].bytes().len() == row * size);
                assert(c.spec_item_size() == size);
                assert(base.columns()[j].spec_item_size() == size);
                assert(row_bytes(c, r) =~= row_bytes(base.columns()[j], r)) by {
                    assert forall|k: int| 0 <= k < size implies row_bytes(c, r)[k] == row_bytes(base.columns()[j], r)[k] by {
                        assert(r * size + k < row * size);
                        assert(c.bytes().subrange(0, row * size)[r * size + k] == c.bytes()[r * size + k]);
                    }
                }
            }
        }
        row
    }

    /// With one key held by no row, an archetype has fewer rows than there
    /// are keys in use.
    proof fn lemma_rows_bounded_without(&self, k: KeyData, a: int)
        requires
            self.wf_without(k),
            0 <= a < self.archetype_seq().len(),
        ensures
            self.archetype_seq()[a].rows().len() < self.entries().len(),
    {
        let rows = self.archetype_seq()[a].rows();
        let ks = rows.map_values(|e: EntityId| e.key());
        assert forall|i: int, j: int| 0 <= i < ks.len() && 0 <= j < ks.len() && i != j implies ks[i] != ks[j] by {
            assert(self.entries()[rows[i].key()].archetype_row == i);
            assert(self.entries()[rows[j].key()].archetype_row == j);
        }
        assert(ks.no_duplicates());
        ks.unique_seq_to_set();
        let d = self.entries().dom().remove(k);
        assert forall|x: KeyData| ks.to_set().contains(x) implies d.contains(x) by {
            let i = choose|i: int| 0 <= i < ks.len() && ks[i] == x;
            assert(self.entries().contains_key(rows[i].key()));
            assert(rows[i].key() != k);
        }
        vstd::set_lib::lemma_len_subset(ks.to_set(), d);
    }
}

impl World {
    /// The bytes of the entity's component of type `t`, if the entity is
    /// alive and has one.
    pub open spec fn component_bytes(&self, e: EntityId, t: TypeId) -> Option<Seq<u8>> {
        if self.live(e) {
            let l = self.location(e);
            let a = self.archetype_seq()[l.archetype_id as int];
            if a.column_of().contains_key(t) {
                Some(row_bytes(a.columns()[a.column_of()[t] as int], l.archetype_row as nat))
            } else {
                None
            }
        } else {
            None
        }
    }

    /// The change ticks (added, changed) of the entity's component of type
    /// `t`, where the entity is alive and has one.
    pub open spec fn component_ticks(&self, e: EntityId, t: TypeId) -> Option<(u32, u32)> {
        if self.live(e) {
            let l = self.location(e);
            let a = self.archetype_seq()[l.archetype_id as int];
            if a.column_of().contains_key(t) {
                let c = a.columns()[a.column_of()[t] as int];
                Some((c.added()[l.archetype_row as int], c.changed()[l.archetype_row as int]))
            } else {
                None
            }
        } else {
            None
        }
    }

    /// Every entity other than the one with key `k` keeps the change ticks
    /// of each of its components.
    pub open spec fn others_ticks_kept(old: World, new: World, k: KeyData) -> bool {
        forall|e: EntityId, t: TypeId| e.key() != k ==> #[trigger] new.component_ticks(e, t) == old.component_ticks(e, t)
    }

    /// Every entity other than the one with key `k` is alive in `new`
    /// exactly when it is in `old`, with the same components.
    pub open spec fn others_kept(old: World, new: World, k: KeyData) -> bool {
        forall|e: EntityId, t: TypeId|
            e.key() != k ==> new.live(e) == old.live(e) && #[trigger] new.component_bytes(e, t) == old.component_bytes(e, t)
    }

    /// The components of the entity in row `row` of archetype `aid`, in
    /// column order.
    fn row_items(&self, aid: usize, row: usize) -> (items: Vec<RawComponent>)
        requires
            self.wf(),
            aid < self.archetype_seq().len(),
            row < self.archetype_seq()[aid as int].rows().len(),
        ensures
            valid_items(items@),
            item_types(items@) == self.archetype_seq()[aid as int].spec_signature()@,
            items@.len() == self.archetype_seq()[aid as int].columns().len(),
            forall|j: int| 0 <= j < items@.len() ==> {
                let c = self.archetype_seq()[aid as int].columns()[j];
                &&& (#[trigger] items@[j]).1 == c.spec_item_size()
                &&& items@[j].2@ == row_bytes(c, row as nat)
            },
    {
        let ghost a = self.archetype_seq()[aid as int];
        proof {
            self.lemma_rows_bounded(aid as int);
            assert(columns_follow_signature(a));
        }
        let sig = self.archetypes[aid].signature();
        let mut items: Vec<RawComponent> = Vec::new();
        let mut j: usize = 0;
        while j < sig.len()
            invariant
                self.wf(),
                aid < self.archetype_seq().len(),
                a == self.archetype_seq()[aid as int],
                sig@ == a.spec_signature()@,
                columns_follow_signature(a),
                row < a.rows().len(),
                a.rows().len() < u32::MAX,
                j <= sig@.len(),
                items@.len() == j,
                forall|x: int| 0 <= x < j ==> {
                    let c = a.columns()[x];
                    &&& (#[trigger] items@[x]).0 == sig@[x]
                    &&& items@[x].1 == c.spec_item_size()
                    &&& items@[x].2@ == row_bytes(c, row as nat)
                },
            decreases sig@.len() - j,
        {
            let t = sig[j];
            let col = match self.archetypes[aid].get_column_by_index(j) {
                Some(c) => c,
                None => {
                    proof {
                        assert(false);
                    }
                    return items;
                },
            };
            let size = col.get_item_size();
            proof {
                let n = a.rows().len();
                assert(*col == a.columns()[j as int]);
                assert(self.archetype_seq()[aid as int].columns()[j as int].bytes().len() == n * size);
                assert(col.bytes().len() == n * size);
                assert(size * (u32::MAX as int) <= usize::MAX);
                assert(row * size + size <= n * size) by (nonlinear_arith)
                    requires
                        row < n,
                ;
                assert(n * size <= usize::MAX) by (nonlinear_arith)
                    requires
                        n < u32::MAX,
                        size * (u32::MAX as int) <= usize::MAX,
                ;
            }
            let bytes = match col.get_item(row) {
                Some(b) => vstd::slice::slice_to_vec(b),
                None => {
                    proof {
                        assert(false);
                    }
                    return items;
                },
            };
            items.push((t, size, bytes));
            j = j + 1;
        }
        proof {
            assert(item_types(items@) =~= a.spec_signature()@);
            assert forall|x: int, y: int| 0 <= x < y < items@.len() implies items@[x].0 != items@[y].0 by {
                assert(a.column_of()[a.spec_signature()@[x]] == x);
                assert(a.column_of()[a.spec_signature()@[y]] == y);
            }
            assert forall|x: int| 0 <= x < items@.len() implies (#[trigger] items@[x]).2@.len() == items@[x].1 by {
                let c = a.columns()[x];
                let size = c.spec_item_size();
                assert(c.bytes().len() == a.rows().len() * size);
                assert(row * size + size <= a.rows().len() * size) by (nonlinear_arith)
                    requires
                        row < a.rows().len(),
                ;
            }
            assert forall|x: int| 0 <= x < items@.len() implies (#[trigger] items@[x]).1 * (u32::MAX as int) <= usize::MAX by {
                assert(a.columns()[x].spec_item_size() * (u32::MAX as int) <= usize::MAX);
            }
        }
        items
    }
}

impl World {
    /// Move a live entity to archetype `target` with the given components:
    /// its old row is swap-removed, it gets a new last row of `target`
    /// holding the components, and every other entity keeps its components.
    fn move_entity(&mut self, entity: EntityId, items: &Vec<RawComponent>, target: usize)
        requires
            old(self).wf(),
            old(self).live(entity),
            target < old(self).archetype_seq().len(),
            target != old(self).location(entity).archetype_id,
            valid_items(items@),
            old(self).archetype_seq()[target as int].spec_signature()@ == item_types(items@),
            forall|i: int| 0 <= i < items@.len() ==> (#[trigger] old(self).archetype_seq()[target as int].columns()[i]).spec_item_size() == items@[i].1,
        ensures
            final(self).wf(),
            World::others_kept(*old(self), *final(self), entity.key()),
            final(self).live(entity),
            final(self).location(entity).archetype_id == target,
            forall|i: int| 0 <= i < items@.len() ==> final(self).component_bytes(entity, #[trigger] items@[i].0) == Some(items@[i].2@),
            forall|t: TypeId| !item_types(items@).contains(t) ==> #[trigger] final(self).component_bytes(entity, t) is None,
            forall|i: int| 0 <= i < items@.len() ==> final(self).component_ticks(entity, #[trigger] items@[i].0) == Some((old(self).spec_tick(), old(self).spec_tick())),
            World::others_ticks_kept(*old(self), *final(self), entity.key()),
            final(self).archetype_seq().len() == old(self).archetype_seq().len(),
            final(self).slots() == old(self).slots(),
            final(self).recycled() == old(self).recycled(),
            final(self).spec_tick() == old(self).spec_tick(),
    {
        let ghost w0 = *self;
        let ghost l0 = self.location(entity);
        let ghost aa = l0.archetype_id as int;
        let ghost rows0 = self.archetype_seq()[aa].rows();
        let ghost last = rows0.len() - 1;
        proof {
            assert(rows0[l0.archetype_row as int].key() == entity.key());
        }
        self.detach(entity);
        let ghost w1 = *self;
        let row = self.attach(entity, items, target);
        proof {
            let w2 = *self;
            let tb = target as int;
            let b0 = w0.archetype_seq()[tb];
            let b2 = w2.archetype_seq()[tb];
            assert(w1.archetype_seq()[tb] == b0);
            // the moved entity's components
            assert(w2.location(entity) == EntityLocation { archetype_id: target, archetype_row: row });
            assert(columns_follow_signature(b0));
            assert forall|i: int| 0 <= i < items@.len() implies w2.component_bytes(entity, #[trigger] items@[i].0) == Some(items@[i].2@) by {
                assert(b0.spec_signature()@[i] == items@[i].0);
                assert(b2.column_of()[items@[i].0] == i);
                assert(row_bytes(b2.columns()[i], row as nat) == items@[i].2@);
            }
            assert forall|t: TypeId| !item_types(items@).contains(t) implies #[trigger] w2.component_bytes(entity, t) is None by {
                if b2.column_of().contains_key(t) {
                    assert(b0.spec_signature()@.contains(t));
                }
            }
            assert forall|i: int| 0 <= i < items@.len() implies w2.component_ticks(entity, #[trigger] items@[i].0) == Some((w0.spec_tick(), w0.spec_tick())) by {
                assert(b0.spec_signature()@[i] == items@[i].0);
                assert(b2.column_of()[items@[i].0] == i);
                assert(b0.columns()[i].added().len() == row);
                assert(b2.columns()[i].added()[row as int] == w0.spec_tick());
                assert(b2.columns()[i].changed()[row as int] == w0.spec_tick());
            }
            assert forall|e: EntityId, t: TypeId| e.key() != entity.key() implies #[trigger] w2.component_ticks(e, t) == w0.component_ticks(e, t) by {
                assert(w2.entries().contains_key(e.key()) == w0.entries().contains_key(e.key()));
                if w0.live(e) {
                    let m0 = w0.location(e);
                    let a0 = w0.archetype_seq()[m0.archetype_id as int];
                    let m2 = w2.location(e);
                    assert(w2.entries()[e.key()] == w1.entries()[e.key()]);
                    if m0.archetype_id as int == aa {
                        let a1 = w1.archetype_seq()[aa];
                        assert(w2.archetype_seq()[aa] == a1);
                        assert(a1.column_of() == a0.column_of());
                        if a0.column_of().contains_key(t) {
                            let ci = a0.column_of()[t] as int;
                            let c0 = a0.columns()[ci];
                            let c1 = a1.columns()[ci];
                            assert(a0.column_of()[t] < a0.columns().len());
                            assert(row_removed(c0, c1, l0.archetype_row as nat));
                            assert(c0.added().len() == rows0.len());
                            assert(c0.ticks_match()) by {
                                assert(a0.wf());
                            }
                            assert(m0.archetype_row != l0.archetype_row) by {
                                assert(rows0[m0.archetype_row as int].key() == e.key());
                            }
                            if m0.archetype_row as int == last && l0.archetype_row < last {
                                assert(rows0.last().key() == e.key());
                                assert(m2 == l0);
                                assert(c1.added()[l0.archetype_row as int] == c0.added().last());
                                assert(c1.changed()[l0.archetype_row as int] == c0.changed().last());
                            } else {
                                assert(m2 == m0);
                                assert(m0.archetype_row < last) by {
                                    if m0.archetype_row as int == last {
                                        assert(l0.archetype_row as int == last);
                                    }
                                }
                                assert(c1.added()[m0.archetype_row as int] == c0.added()[m0.archetype_row as int]);
                                assert(c1.changed()[m0.archetype_row as int] == c0.changed()[m0.archetype_row as int]);
                            }
                        } else {
                            if m0.archetype_row as int == last && l0.archetype_row < last {
                                assert(rows0.last().key() == e.key());
                            }
                        }
                    } else if m0.archetype_id == target {
                        assert(m2 == m0);
                        assert(b2.column_of() == b0.column_of());
                        if b0.column_of().contains_key(t) {
                            let ci = b0.column_of()[t] as int;
                            assert(b0.column_of()[t] < b0.columns().len());
                            assert(m0.archetype_row < row);
                            assert(b2.columns()[ci].added()[m0.archetype_row as int] == b0.columns()[ci].added()[m0.archetype_row as int]);
                            assert(b2.columns()[ci].changed()[m0.archetype_row as int] == b0.columns()[ci].changed()[m0.archetype_row as int]);
                        }
                    } else {
                        assert(m2 == m0);
                        assert(w2.archetype_seq()[m0.archetype_id as int] == a0);
                    }
                }
            }
            // every other entity
            assert forall|e: EntityId, t: TypeId| e.key() != entity.key() implies w2.live(e) == w0.live(e)
                && #[trigger] w2.component_bytes(e, t) == w0.component_bytes(e, t) by {
                assert(w2.entries().contains_key(e.key()) == w0.entries().contains_key(e.key()));
                if w0.live(e) {
                    let m0 = w0.location(e);
                    let a0 = w0.archetype_seq()[m0.archetype_id as int];
                    let m2 = w2.location(e);
                    assert(w2.entries()[e.key()] == w1.entries()[e.key()]);
                    if m0.archetype_id as int == aa {
                        let a1 = w1.archetype_seq()[aa];
                        assert(w2.archetype_seq()[aa] == a1);
                        assert(a1.column_of() == a0.column_of());
                        if a0.column_of().contains_key(t) {
                            let ci = a0.column_of()[t] as int;
                            assert(a0.column_of()[t] < a0.columns().len());
                            assert(row_removed(a0.columns()[ci], a1.columns()[ci], l0.archetype_row as nat));
                            assert(a0.columns()[ci].bytes().len() == rows0.len() * a0.columns()[ci].spec_item_size());
                            lemma_swap_removed_rows(a0.columns()[ci], a1.columns()[ci], l0.archetype_row as nat, rows0.len());
                            assert(m0.archetype_row != l0.archetype_row) by {
                                assert(rows0[m0.archetype_row as int].key() == e.key());
                            }
                            if m0.archetype_row as int == last && l0.archetype_row < last {
                                assert(rows0.last().key() == e.key());
                                assert(m2 == l0);
                            } else {
                                assert(m2 == m0);
                                assert(m0.archetype_row < last) by {
                                    if m0.archetype_row as int == last {
                                        assert(l0.archetype_row as int == last);
                                    }
                                }
                            }
                        } else {
                            if m0.archetype_row as int == last && l0.archetype_row < last {
                                assert(rows0.last().key() == e.key());
                            }
                        }
                    } else if m0.archetype_id == target {
                        assert(m2 == m0);
                        assert(b2.column_of() == b0.column_of());
                        if b0.column_of().contains_key(t) {
                            let ci = b0.column_of()[t] as int;
                            assert(b0.column_of()[t] < b0.columns().len());
                            assert(m0.archetype_row < row);
                            assert(row_bytes(b2.columns()[ci], m0.archetype_row as nat) == row_bytes(b0.columns()[ci], m0.archetype_row as nat));
                        }
                    } else {
                        assert(m2 == m0);
                        assert(w2.archetype_seq()[m0.archetype_id as int] == a0);
                    }
                }
            }
        }
    }
}

impl World {
    /// Sizes that let a component of type `t` with `size` bytes be added to
    /// `e`: the size of `e`'s column of that type where it has one, and
    /// otherwise the sizes of the columns of any archetype with `e`'s
    /// signature followed by `t`.
    pub open spec fn add_fits(&self, e: EntityId, t: TypeId, size: nat) -> bool {
        let l = self.location(e);
        let a = self.archetype_seq()[l.archetype_id as int];
        if a.column_of().contains_key(t) {
            a.columns()[a.column_of()[t] as int].spec_item_size() == size
        } else {
            forall|b: int, j: int|
                0 <= b < self.archetype_seq().len() && self.archetype_seq()[b].spec_signature()@ == a.spec_signature()@.push(t)
                    && 0 <= j <= a.columns().len() ==> (#[trigger] self.archetype_seq()[b].columns()[j]).spec_item_size() == if j
                    < a.columns().len() {
                    a.columns()[j].spec_item_size()
                } else {
                    size
                }
        }
    }

    /// Overwrite the component of type `t` of a live entity that has one.
    fn overwrite_component(&mut self, entity: EntityId, t: TypeId, bytes: &[u8])
        requires
            old(self).wf(),
            old(self).live(entity),
            old(self).component_bytes(entity, t) is Some,
            old(self).add_fits(entity, t, bytes@.len()),
        ensures
            final(self).wf(),
            World::others_kept(*old(self), *final(self), entity.key()),
            final(self).live(entity),
            final(self).component_bytes(entity, t) == Some(bytes@),
            forall|t2: TypeId| t2 != t ==> #[trigger] final(self).component_bytes(entity, t2) == old(self).component_bytes(entity, t2),
            forall|e: EntityId, t2: TypeId| #[trigger] final(self).component_ticks(e, t2) == old(self).component_ticks(e, t2),
            final(self).entries() == old(self).entries(),
            final(self).archetype_seq().len() == old(self).archetype_seq().len(),
            final(self).slots() == old(self).slots(),
            final(self).recycled() == old(self).recycled(),
            final(self).spec_tick() == old(self).spec_tick(),
    {
        let ghost w0 = *self;
        let location = match table_get(&self.entity_locations, entity.data()) {
            Some(l) => l,
            None => {
                proof {
                    assert(false);
                }
                return;
            },
        };
        let aid = location.archetype_id;
        let row = location.archetype_row;
        let ghost a0 = self.archetype_seq()[aid as int];
        let ghost ci = a0.column_of()[t] as int;
        let ghost size = a0.columns()[ci].spec_item_size();
        let ghost n = a0.rows().len();
        proof {
            self.lemma_rows_bounded(aid as int);
            assert(a0.column_of()[t] < a0.columns().len());
            assert(columns_follow_signature(a0));
            assert(a0.columns()[ci].bytes().len() == n * size);
            assert(size * (u32::MAX as int) <= usize::MAX);
            assert(row * size + size <= n * size) by (nonlinear_arith)
                requires
                    row < n,
            ;
            assert(n * size <= usize::MAX) by (nonlinear_arith)
                requires
                    n < u32::MAX,
                    size * (u32::MAX as int) <= usize::MAX,
            ;
        }
        match self.archetypes[aid].get_column_mut(t) {
            Some(col) => {
                col.write_item(row, bytes);
            },
            None => {},
        }
        proof {
            let w1 = *self;
            let a1 = w1.archetype_seq()[aid as int];
            let c0 = a0.columns()[ci];
            let c1 = a1.columns()[ci];
            assert(a1.columns() == a0.columns().update(ci, c1));
            assert(c1.bytes().len() == c0.bytes().len());
            assert forall|r: nat| r < n && r != row implies #[trigger] row_bytes(c1, r) == row_bytes(c0, r) by {
                assert(r * size + size <= n * size) by (nonlinear_arith)
                    requires
                        r < n,
                ;
                assert forall|k: int| 0 <= k < size implies row_bytes(c1, r)[k] == row_bytes(c0, r)[k] by {
                    let i = r * size + k;
                    assert(!(row * size <= i < row * size + size)) by (nonlinear_arith)
                        requires
                            i == r * size + k,
                            0 <= k < size,
                            r != row,
                    ;
                    assert(c1.bytes()[i] == c0.bytes()[i]);
                }
                assert(row_bytes(c1, r) =~= row_bytes(c0, r));
            }
            assert(row_bytes(c1, row as nat) =~= bytes@);
            // well formed
            assert(a1.wf()) by {
                assert forall|j: int| 0 <= j < a1.columns().len() implies (#[trigger] a1.columns()[j]).ticks_match() by {
                    assert(a0.columns()[j].ticks_match());
                }
                assert forall|x: TypeId| #[trigger] a1.column_of().contains_key(x) implies a1.column_of()[x] < a1.columns().len() by {
                    assert(a0.column_of().contains_key(x));
                }
            }
            let arch = w1.archetype_seq();
            assert forall|k: KeyData| #[trigger] w1.entries().contains_key(k) implies {
                let l = w1.entries()[k];
                &&& l.archetype_id < arch.len()
                &&& l.archetype_row < arch[l.archetype_id as int].rows().len()
                &&& arch[l.archetype_id as int].rows()[l.archetype_row as int].key() == k
            } by {
                assert(w0.entries().contains_key(k));
            }
            assert forall|b: int, r: int| 0 <= b < arch.len() && 0 <= r < arch[b].rows().len() implies {
                &&& w1.entries().contains_key((#[trigger] arch[b].rows()[r]).key())
                &&& w1.entries()[arch[b].rows()[r].key()].archetype_id == b
                &&& w1.entries()[arch[b].rows()[r].key()].archetype_row == r
            } by {
                assert(arch[b].rows() == w0.archetype_seq()[b].rows());
            }
            assert forall|b: int| 0 <= b < arch.len() implies (#[trigger] arch[b]).wf() by {
                if b != aid {
                    assert(arch[b] == w0.archetype_seq()[b]);
                }
            }
            assert forall|b: int, j: int| 0 <= b < arch.len() && 0 <= j < arch[b].columns().len() implies (#[trigger] arch[b].columns()[j]).bytes().len()
                == arch[b].rows().len() * arch[b].columns()[j].spec_item_size() by {
                if b != aid {
                    assert(arch[b] == w0.archetype_seq()[b]);
                } else if j != ci {
                    assert(arch[b].columns()[j] == a0.columns()[j]);
                }
            }
            assert forall|b: int| 0 <= b < arch.len() implies columns_follow_signature(#[trigger] arch[b]) by {
                if b != aid {
                    assert(arch[b] == w0.archetype_seq()[b]);
                } else {
                    assert forall|j: int| 0 <= j < a1.columns().len() implies (#[trigger] a1.columns()[j]).spec_item_size() * (u32::MAX as int) <= usize::MAX by {
                        assert(a0.columns()[j].spec_item_size() * (u32::MAX as int) <= usize::MAX);
                    }
                }
            }
            assert(w1.wf());
            assert forall|t2: TypeId| t2 != t implies #[trigger] w1.component_bytes(entity, t2) == w0.component_bytes(entity, t2) by {
                if a0.column_of().contains_key(t2) {
                    assert(a0.column_of()[t2] != ci) by {
                        assert(a0.spec_signature()@.contains(t2));
                        assert(a0.spec_signature()@.contains(t));
                        let j1 = choose|j: int| 0 <= j < a0.spec_signature()@.len() && a0.spec_signature()@[j] == t2;
                        let j2 = choose|j: int| 0 <= j < a0.spec_signature()@.len() && a0.spec_signature()@[j] == t;
                        assert(a0.column_of()[a0.spec_signature()@[j1]] == j1);
                        assert(a0.column_of()[a0.spec_signature()@[j2]] == j2);
                    }
                }
            }
            assert forall|e: EntityId, t3: TypeId| e.key() != entity.key() implies w1.live(e) == w0.live(e)
                && #[trigger] w1.component_bytes(e, t3) == w0.component_bytes(e, t3) by {
                if w0.live(e) {
                    let m = w0.location(e);
                    if m.archetype_id == aid && a0.column_of().contains_key(t3) && a0.column_of()[t3] as int == ci {
                        assert(m.archetype_row != row) by {
                            assert(a0.rows()[m.archetype_row as int].key() == e.key());
                        }
                        assert(row_bytes(c1, m.archetype_row as nat) == row_bytes(c0, m.archetype_row as nat));
                    } else if m.archetype_id == aid && a0.column_of().contains_key(t3) {
                        assert(a0.column_of()[t3] < a0.columns().len());
                        assert(a1.columns()[a0.column_of()[t3] as int] == a0.columns()[a0.column_of()[t3] as int]);
                    } else if m.archetype_id != aid {
                        assert(arch[m.archetype_id as int] == w0.archetype_seq()[m.archetype_id as int]);
                    }
                }
            }
            assert forall|e: EntityId, t3: TypeId| #[trigger] w1.component_ticks(e, t3) == w0.component_ticks(e, t3) by {
                if w0.live(e) {
                    let m = w0.location(e);
                    if m.archetype_id != aid {
                        assert(arch[m.archetype_id as int] == w0.archetype_seq()[m.archetype_id as int]);
                    } else if a0.column_of().contains_key(t3) {
                        assert(a0.column_of()[t3] < a0.columns().len());
                        if a0.column_of()[t3] as int != ci {
                            assert(a1.columns()[a0.column_of()[t3] as int] == a0.columns()[a0.column_of()[t3] as int]);
                        } else {
                            assert(c1.added() == c0.added());
                            assert(c1.changed() == c0.changed());
                        }
                    }
                }
            }
        }
    }
}

impl World {
    /// Find the archetype whose signature is the types of `items`, making it
    /// when there is none; every entity keeps its components.
    fn archetype_for(&mut self, items: &Vec<RawComponent>) -> (a: usize)
        requires
            old(self).wf(),
            valid_items(items@),
            old(self).sizes_agree(items@),
        ensures
            final(self).wf(),
            a < final(self).archetype_seq().len(),
            final(self).archetype_seq()[a as int].spec_signature()@ == item_types(items@),
            forall|i: int| 0 <= i < items@.len() ==> (#[trigger] final(self).archetype_seq()[a as int].columns()[i]).spec_item_size() == items@[i].1,
            final(self).entries() == old(self).entries(),
            final(self).archetype_seq().len() >= old(self).archetype_seq().len(),
            forall|b: int| 0 <= b < old(self).archetype_seq().len() ==> #[trigger] final(self).archetype_seq()[b] == old(self).archetype_seq()[b],
            forall|e: EntityId, t: TypeId| #[trigger] final(self).component_bytes(e, t) == old(self).component_bytes(e, t),
            final(self).slots() == old(self).slots(),
            final(self).recycled() == old(self).recycled(),
            final(self).spec_tick() == old(self).spec_tick(),
    {
        match self.find_archetype(items) {
            Some(a) => a,
            None => {
                let a = self.create_archetype(items);
                proof {
                    assert forall|e: EntityId, t: TypeId| #[trigger] self.component_bytes(e, t) == old(self).component_bytes(e, t) by {
                        if old(self).live(e) {
                            let l = old(self).location(e);
                            assert(self.archetype_seq()[l.archetype_id as int] == old(self).archetype_seq()[l.archetype_id as int]);
                        }
                    }
                }
                a
            },
        }
    }

    /// Add a component to an entity from its raw bytes: a component of the
    /// same type is overwritten; otherwise the entity moves to the archetype
    /// of its signature followed by the new type. Fails with `EntityNotFound`
    /// exactly when the entity is not alive, and then nothing changes.
    pub fn add_component_raw(&mut self, entity: EntityId, type_id: TypeId, size: usize, bytes: Vec<u8>) -> (r: Result<()>)
        requires
            old(self).wf(),
            bytes@.len() == size,
            size * (u32::MAX as int) <= usize::MAX,
            old(self).live(entity) ==> old(self).add_fits(entity, type_id, size as nat),
        ensures
            final(self).wf(),
            r is Ok <==> old(self).live(entity),
            r is Err ==> r == Err::<(), EcsError>(EcsError::EntityNotFound) && final(self).entries() == old(self).entries()
                && final(self).archetype_seq() == old(self).archetype_seq(),
            r is Ok ==> final(self).component_bytes(entity, type_id) == Some(bytes@),
            r is Ok ==> forall|t: TypeId| t != type_id ==> #[trigger] final(self).component_bytes(entity, t) == old(self).component_bytes(entity, t),
            World::others_kept(*old(self), *final(self), entity.key()),
            World::others_ticks_kept(*old(self), *final(self), entity.key()),
            r is Ok && old(self).component_bytes(entity, type_id) is Some ==> forall|t: TypeId| #[trigger] final(self).component_ticks(entity, t)
                == old(self).component_ticks(entity, t),
            r is Ok && old(self).component_bytes(entity, type_id) is None ==> forall|t: TypeId| #[trigger] final(self).component_ticks(entity, t)
                == if final(self).component_bytes(entity, t) is Some {
                Some((old(self).spec_tick(), old(self).spec_tick()))
            } else {
                None
            },
            final(self).recycled() == old(self).recycled(),
            final(self).spec_tick() == old(self).spec_tick(),
    {
        let location = match table_get(&self.entity_locations, entity.data()) {
            Some(l) => l,
            None => {
                return Err(EcsError::EntityNotFound);
            },
        };
        let aid = location.archetype_id;
        let row = location.archetype_row;
        let ghost a0 = self.archetype_seq()[aid as int];
        if self.archetypes[aid].has_column(type_id) {
            self.overwrite_component(entity, type_id, bytes.as_slice());
            return Ok(());
        }
        let mut items = self.row_items(aid, row);
        let ghost old_items = items@;
        items.push((type_id, size, bytes));
        proof {
            assert(columns_follow_signature(a0));
            assert(item_types(items@) =~= a0.spec_signature()@.push(type_id));
            assert(!a0.spec_signature()@.contains(type_id)) by {
                if a0.spec_signature()@.contains(type_id) {
                    let j = choose|j: int| 0 <= j < a0.spec_signature()@.len() && a0.spec_signature()@[j] == type_id;
                    assert(a0.column_of().contains_key(a0.spec_signature()@[j]));
                }
            }
            assert forall|i: int, j: int| 0 <= i < j < items@.len() implies items@[i].0 != items@[j].0 by {
                if j == items@.len() - 1 {
                    assert(items@[i].0 == a0.spec_signature()@[i]);
                } else {
                    assert(items@[i] == old_items[i] && items@[j] == old_items[j]);
                }
            }
            assert forall|i: int| 0 <= i < items@.len() implies (#[trigger] items@[i]).2@.len() == items@[i].1 by {
                if i < old_items.len() {
                    assert(items@[i] == old_items[i]);
                }
            }
            assert forall|i: int| 0 <= i < items@.len() implies (#[trigger] items@[i]).1 * (u32::MAX as int) <= usize::MAX by {
                if i < old_items.len() {
                    assert(items@[i] == old_items[i]);
                }
            }
            assert(self.sizes_agree(items@)) by {
                assert forall|b: int, i: int|
                    0 <= b < self.archetype_seq().len() && self.archetype_seq()[b].spec_signature()@ == item_types(items@) && 0 <= i
                        < items@.len() implies (#[trigger] self.archetype_seq()[b].columns()[i]).spec_item_size() == items@[i].1 by {
                    assert(self.archetype_seq()[b].spec_signature()@ == a0.spec_signature()@.push(type_id));
                    if i < old_items.len() {
                        assert(items@[i] == old_items[i]);
                    }
                }
            }
        }
        let target = self.archetype_for(&items);
        proof {
            assert(self.archetype_seq()[aid as int] == a0);
            assert(target != aid) by {
                if target == aid {
                    assert(a0.spec_signature()@.len() == items@.len());
                }
            }
        }
        let ghost w1 = *self;
        self.move_entity(entity, &items, target);
        proof {
            assert(items@[items@.len() - 1].0 == type_id);
            assert(self.component_bytes(entity, items@[items@.len() - 1].0) == Some(items@[items@.len() - 1].2@));
            assert forall|t: TypeId| t != type_id implies #[trigger] self.component_bytes(entity, t) == old(self).component_bytes(entity, t) by {
                assert(w1.component_bytes(entity, t) == old(self).component_bytes(entity, t));
                if a0.column_of().contains_key(t) {
                    assert(a0.spec_signature()@.contains(t));
                    let j = choose|j: int| 0 <= j < a0.spec_signature()@.len() && a0.spec_signature()@[j] == t;
                    assert(a0.column_of()[a0.spec_signature()@[j]] == j);
                    assert(items@[j] == old_items[j]);
                    assert(self.component_bytes(entity, items@[j].0) == Some(items@[j].2@));
                } else {
                    assert(!item_types(items@).contains(t)) by {
                        if item_types(items@).contains(t) {
                            let j = choose|j: int| 0 <= j < item_types(items@).len() && item_types(items@)[j] == t;
                            assert(j < a0.spec_signature()@.len());
                            assert(a0.column_of().contains_key(a0.spec_signature()@[j]));
                        }
                    }
                }
            }
            assert forall|e: EntityId, t: TypeId| e.key() != entity.key() implies self.live(e) == old(self).live(e)
                && #[trigger] self.component_bytes(e, t) == old(self).component_bytes(e, t) by {
                assert(w1.component_bytes(e, t) == old(self).component_bytes(e, t));
                assert(self.component_bytes(e, t) == w1.component_bytes(e, t));
            }
            assert forall|e: EntityId, t: TypeId| e.key() != entity.key() implies #[trigger] self.component_ticks(e, t)
                == old(self).component_ticks(e, t) by {
                assert(w1.component_ticks(e, t) == old(self).component_ticks(e, t));
                assert(self.component_ticks(e, t) == w1.component_ticks(e, t));
            }
            assert forall|t: TypeId| #[trigger] self.component_ticks(entity, t) == if self.component_bytes(entity, t) is Some {
                Some((w1.spec_tick(), w1.spec_tick()))
            } else {
                None
            } by {
                if item_types(items@).contains(t) {
                    let j = choose|j: int| 0 <= j < item_types(items@).len() && item_types(items@)[j] == t;
                    assert(items@[j].0 == t);
                    assert(self.component_ticks(entity, items@[j].0) == Some((w1.spec_tick(), w1.spec_tick())));
                    assert(self.component_bytes(entity, items@[j].0) == Some(items@[j].2@));
                } else {
                    assert(self.component_bytes(entity, t) is None);
                }
            }
        }
        Ok(())
    }
}

impl World {
    /// Sizes that let the component of type `t` be removed from `e`: any
    /// archetype whose signature is `e`'s without `t` has the sizes of `e`'s
    /// other columns.
    pub open spec fn remove_fits(&self, e: EntityId, t: TypeId) -> bool {
        let l = self.location(e);
        let a = self.archetype_seq()[l.archetype_id as int];
        let ci = a.column_of()[t] as int;
        forall|b: int, j: int|
            0 <= b < self.archetype_seq().len() && self.archetype_seq()[b].spec_signature()@ == a.spec_signature()@.remove(ci)
                && 0 <= j < a.columns().len() - 1 ==> (#[trigger] self.archetype_seq()[b].columns()[j]).spec_item_size()
                == a.columns()[if j < ci { j } else { j + 1 }].spec_item_size()
    }

    /// Remove a component from an entity: the entity moves to the archetype
    /// of its signature without that type. Fails with `EntityNotFound` when
    /// the entity is not alive and with `ComponentNotFound` when it has no
    /// such component; then nothing changes.
    pub fn remove_component_raw(&mut self, entity: EntityId, type_id: TypeId) -> (r: Result<()>)
        requires
            old(self).wf(),
            old(self).live(entity) && old(self).component_bytes(entity, type_id) is Some ==> old(self).remove_fits(entity, type_id),
        ensures
            final(self).wf(),
            !old(self).live(entity) ==> r == Err::<(), EcsError>(EcsError::EntityNotFound),
            old(self).live(entity) && old(self).component_bytes(entity, type_id) is None ==> r == Err::<(), EcsError>(
                EcsError::ComponentNotFound,
            ),
            r is Ok <==> old(self).component_bytes(entity, type_id) is Some,
            r is Err ==> final(self).entries() == old(self).entries() && final(self).archetype_seq() == old(self).archetype_seq(),
            r is Ok ==> final(self).live(entity) && final(self).component_bytes(entity, type_id) is None,
            r is Ok ==> forall|t: TypeId| t != type_id ==> #[trigger] final(self).component_bytes(entity, t) == old(self).component_bytes(entity, t),
            World::others_kept(*old(self), *final(self), entity.key()),
            World::others_ticks_kept(*old(self), *final(self), entity.key()),
            r is Ok ==> forall|t: TypeId| #[trigger] final(self).component_ticks(entity, t) == if final(self).component_bytes(entity, t) is Some {
                Some((old(self).spec_tick(), old(self).spec_tick()))
            } else {
                None
            },
            final(self).recycled() == old(self).recycled(),
            final(self).spec_tick() == old(self).spec_tick(),
    {
        let location = match table_get(&self.entity_locations, entity.data()) {
            Some(l) => l,
            None => {
                return Err(EcsError::EntityNotFound);
            },
        };
        let aid = location.archetype_id;
        let row = location.archetype_row;
        let ghost a0 = self.archetype_seq()[aid as int];
        if !self.archetypes[aid].has_column(type_id) {
            return Err(EcsError::ComponentNotFound);
        }
        let ghost ci = a0.column_of()[type_id] as int;
        let all = self.row_items(aid, row);
        proof {
            assert(columns_follow_signature(a0));
            assert(a0.column_of()[type_id] < a0.columns().len());
            assert(a0.spec_signature()@.contains(type_id));
            let j = choose|j: int| 0 <= j < a0.spec_signature()@.len() && a0.spec_signature()@[j] == type_id;
            assert(a0.column_of()[a0.spec_signature()@[j]] == j);
            assert(j == ci);
            assert(all@[ci].0 == type_id);
        }
        let mut items: Vec<RawComponent> = Vec::new();
        let mut j: usize = 0;
        while j < all.len()
            invariant
                0 <= ci < all@.len(),
                all@[ci].0 == type_id,
                forall|x: int, y: int| 0 <= x < y < all@.len() ==> all@[x].0 != all@[y].0,
                j <= all@.len(),
                items@.len() == if j <= ci { j as int } else { j - 1 },
                forall|x: int| 0 <= x < items@.len() ==> (#[trigger] items@[x]).0 == all@[if x < ci { x } else { x + 1 }].0
                    && items@[x].1 == all@[if x < ci { x } else { x + 1 }].1
                    && items@[x].2@ == all@[if x < ci { x } else { x + 1 }].2@,
            decreases all@.len() - j,
        {
            if !type_id_eq(&all[j].0, &type_id) {
                proof {
                    assert(j != ci);
                }
                items.push((all[j].0, all[j].1, vstd::slice::slice_to_vec(all[j].2.as_slice())));
            } else {
                proof {
                    if j != ci {
                        if j < ci {
                            assert(all@[j as int].0 != all@[ci].0);
                        } else {
                            assert(all@[ci].0 != all@[j as int].0);
                        }
                    }
                }
            }
            j = j + 1;
        }
        proof {
            let n = a0.columns().len();
            assert(items@.len() == n - 1);
            assert(item_types(items@) =~= a0.spec_signature()@.remove(ci)) by {
                assert forall|x: int| 0 <= x < n - 1 implies item_types(items@)[x] == a0.spec_signature()@.remove(ci)[x] by {
                    assert(items@[x].0 == all@[if x < ci { x } else { x + 1 }].0);
                }
            }
            assert(valid_items(items@)) by {
                assert forall|x: int, y: int| 0 <= x < y < items@.len() implies items@[x].0 != items@[y].0 by {
                    assert(items@[x].0 == all@[if x < ci { x } else { x + 1 }].0);
                    assert(items@[y].0 == all@[if y < ci { y } else { y + 1 }].0);
                }
                assert forall|x: int| 0 <= x < items@.len() implies (#[trigger] items@[x]).2@.len() == items@[x].1 by {
                    assert(items@[x].2@ == all@[if x < ci { x } else { x + 1 }].2@);
                }
                assert forall|x: int| 0 <= x < items@.len() implies (#[trigger] items@[x]).1 * (u32::MAX as int) <= usize::MAX by {
                    assert(items@[x].1 == all@[if x < ci { x } else { x + 1 }].1);
                }
            }
            assert(self.sizes_agree(items@)) by {
                assert forall|b: int, i: int|
                    0 <= b < self.archetype_seq().len() && self.archetype_seq()[b].spec_signature()@ == item_types(items@) && 0 <= i
                        < items@.len() implies (#[trigger] self.archetype_seq()[b].columns()[i]).spec_item_size() == items@[i].1 by {
                    assert(items@[i].1 == all@[if i < ci { i } else { i + 1 }].1);
                }
            }
        }
        let target = self.archetype_for(&items);
        proof {
            assert(self.archetype_seq()[aid as int] == a0);
            assert(target != aid) by {
                if target == aid {
                    assert(a0.spec_signature()@.len() == items@.len());
                }
            }
        }
        let ghost w1 = *self;
        self.move_entity(entity, &items, target);
        proof {
            let n = a0.columns().len();
            assert(!item_types(items@).contains(type_id)) by {
                if item_types(items@).contains(type_id) {
                    let x = choose|x: int| 0 <= x < item_types(items@).len() && item_types(items@)[x] == type_id;
                    assert(items@[x].0 == all@[if x < ci { x } else { x + 1 }].0);
                }
            }
            assert forall|t: TypeId| t != type_id implies #[trigger] self.component_bytes(entity, t) == old(self).component_bytes(entity, t) by {
                assert(w1.component_bytes(entity, t) == old(self).component_bytes(entity, t));
                if a0.column_of().contains_key(t) {
                    assert(a0.spec_signature()@.contains(t));
                    let k = choose|k: int| 0 <= k < a0.spec_signature()@.len() && a0.spec_signature()@[k] == t;
                    assert(a0.column_of()[a0.spec_signature()@[k]] == k);
                    assert(k != ci);
                    let x = if k < ci { k } else { k - 1 };
                    assert(items@[x].0 == all@[k].0);
                    assert(self.component_bytes(entity, items@[x].0) == Some(items@[x].2@));
                } else {
                    assert(!item_types(items@).contains(t)) by {
                        if item_types(items@).contains(t) {
                            let x = choose|x: int| 0 <= x < item_types(items@).len() && item_types(items@)[x] == t;
                            let k = if x < ci { x } else { x + 1 };
                            assert(items@[x].0 == all@[k].0);
                            assert(a0.column_of().contains_key(a0.spec_signature()@[k]));
                        }
                    }
                }
            }
            assert forall|e: EntityId, t: TypeId| e.key() != entity.key() implies self.live(e) == old(self).live(e)
                && #[trigger] self.component_bytes(e, t) == old(self).component_bytes(e, t) by {
                assert(w1.component_bytes(e, t) == old(self).component_bytes(e, t));
                assert(self.component_bytes(e, t) == w1.component_bytes(e, t));
            }
            assert forall|e: EntityId, t: TypeId| e.key() != entity.key() implies #[trigger] self.component_ticks(e, t)
                == old(self).component_ticks(e, t) by {
                assert(w1.component_ticks(e, t) == old(self).component_ticks(e, t));
                assert(self.component_ticks(e, t) == w1.component_ticks(e, t));
            }
            assert forall|t: TypeId| #[trigger] self.component_ticks(entity, t) == if self.component_bytes(entity, t) is Some {
                Some((w1.spec_tick(), w1.spec_tick()))
            } else {
                None
            } by {
                if item_types(items@).contains(t) {
                    let j = choose|j: int| 0 <= j < item_types(items@).len() && item_types(items@)[j] == t;
                    assert(items@[j].0 == t);
                    assert(self.component_ticks(entity, items@[j].0) == Some((w1.spec_tick(), w1.spec_tick())));
                    assert(self.component_bytes(entity, items@[j].0) == Some(items@[j].2@));
                } else {
                    assert(self.component_bytes(entity, t) is None);
                }
            }
        }
        Ok(())
    }
}

impl World {
    /// Spawn one entity into archetype `aid`, whose signature is the types of
    /// `items`; every other entity keeps its components.
    fn spawn_into(&mut self, items: &Vec<RawComponent>, aid: usize) -> (e: EntityId)
        requires
            old(self).wf(),
            old(self).slots() < u32::MAX,
            aid < old(self).archetype_seq().len(),
            valid_items(items@),
            old(self).archetype_seq()[aid as int].spec_signature()@ == item_types(items@),
            forall|i: int| 0 <= i < items@.len() ==> (#[trigger] old(self).archetype_seq()[aid as int].columns()[i]).spec_item_size() == items@[i].1,
        ensures
            final(self).wf(),
            !old(self).live(e),
            final(self).live(e),
            final(self).location(e).archetype_id == aid,
            forall|i: int| 0 <= i < items@.len() ==> final(self).component_bytes(e, #[trigger] items@[i].0) == Some(items@[i].2@),
            forall|i: int| 0 <= i < items@.len() ==> final(self).component_ticks(e, #[trigger] items@[i].0) == Some((old(self).spec_tick(), old(self).spec_tick())),
            World::others_kept(*old(self), *final(self), e.key()),
            World::others_ticks_kept(*old(self), *final(self), e.key()),
            final(self).entries() == old(self).entries().insert(e.key(), final(self).location(e)),
            final(self).slots() <= old(self).slots() + 1,
            final(self).archetype_seq().len() == old(self).archetype_seq().len(),
            final(self).archetype_seq()[aid as int].spec_signature() == old(self).archetype_seq()[aid as int].spec_signature(),
            forall|i: int| 0 <= i < items@.len() ==> (#[trigger] final(self).archetype_seq()[aid as int].columns()[i]).spec_item_size() == items@[i].1,
            final(self).recycled() == old(self).recycled(),
            final(self).spec_tick() == old(self).spec_tick(),
    {
        let ghost w0 = *self;
        let key = table_insert(&mut self.entity_locations, EntityLocation { archetype_id: aid, archetype_row: 0 });
        let entity = EntityId::from(key);
        proof {
            let arch = self.archetype_seq();
            let ent = self.entries();
            assert forall|k2: KeyData| #[trigger] ent.contains_key(k2) && k2 != key implies {
                let l = ent[k2];
                &&& l.archetype_id < arch.len()
                &&& l.archetype_row < arch[l.archetype_id as int].rows().len()
                &&& arch[l.archetype_id as int].rows()[l.archetype_row as int].key() == k2
            } by {
                assert(w0.entries().contains_key(k2));
            }
            assert forall|b: int, r: int| 0 <= b < arch.len() && 0 <= r < arch[b].rows().len() implies {
                &&& ent.contains_key((#[trigger] arch[b].rows()[r]).key())
                &&& arch[b].rows()[r].key() != key
                &&& ent[arch[b].rows()[r].key()].archetype_id == b
                &&& ent[arch[b].rows()[r].key()].archetype_row == r
            } by {
                assert(w0.entries().contains_key(arch[b].rows()[r].key()));
            }
        }
        let ghost w1 = *self;
        let row = self.attach(entity, items, aid);
        proof {
            let w2 = *self;
            let b0 = w0.archetype_seq()[aid as int];
            let b2 = w2.archetype_seq()[aid as int];
            assert(w1.archetype_seq() == w0.archetype_seq());
            assert(columns_follow_signature(b0));
            assert(w2.location(entity) == EntityLocation { archetype_id: aid, archetype_row: row });
            assert(w2.entries() =~= w0.entries().insert(entity.key(), w2.location(entity)));
            assert forall|i: int| 0 <= i < items@.len() implies w2.component_bytes(entity, #[trigger] items@[i].0) == Some(items@[i].2@) by {
                assert(b0.spec_signature()@[i] == items@[i].0);
                assert(b2.column_of()[items@[i].0] == i);
            }
            assert forall|i: int| 0 <= i < items@.len() implies w2.component_ticks(entity, #[trigger] items@[i].0) == Some((w0.spec_tick(), w0.spec_tick())) by {
                assert(b0.spec_signature()@[i] == items@[i].0);
                assert(b2.column_of()[items@[i].0] == i);
                assert(b0.columns()[i].added().len() == row);
                assert(b2.columns()[i].added()[row as int] == w0.spec_tick());
                assert(b2.columns()[i].changed()[row as int] == w0.spec_tick());
            }
            assert forall|e2: EntityId, t: TypeId| e2.key() != entity.key() implies #[trigger] w2.component_ticks(e2, t)
                == w0.component_ticks(e2, t) by {
                if w0.live(e2) {
                    let m0 = w0.location(e2);
                    assert(w2.location(e2) == m0);
                    if m0.archetype_id == aid {
                        if b0.column_of().contains_key(t) {
                            let ci = b0.column_of()[t] as int;
                            assert(b0.column_of()[t] < b0.columns().len());
                            assert(m0.archetype_row < row);
                            assert(b2.columns()[ci].added()[m0.archetype_row as int] == b0.columns()[ci].added()[m0.archetype_row as int]);
                            assert(b2.columns()[ci].changed()[m0.archetype_row as int] == b0.columns()[ci].changed()[m0.archetype_row as int]);
                        }
                    } else {
                        assert(w2.archetype_seq()[m0.archetype_id as int] == w0.archetype_seq()[m0.archetype_id as int]);
                    }
                }
            }
            assert forall|e: EntityId, t: TypeId| e.key() != entity.key() implies w2.live(e) == w0.live(e)
                && #[trigger] w2.component_bytes(e, t) == w0.component_bytes(e, t) by {
                if w0.live(e) {
                    let m0 = w0.location(e);
                    assert(w2.location(e) == m0);
                    let a0 = w0.archetype_seq()[m0.archetype_id as int];
                    if m0.archetype_id == aid {
                        if b0.column_of().contains_key(t) {
                            let ci = b0.column_of()[t] as int;
                            assert(b0.column_of()[t] < b0.columns().len());
                            assert(m0.archetype_row < row);
                            assert(row_bytes(b2.columns()[ci], m0.archetype_row as nat) == row_bytes(b0.columns()[ci], m0.archetype_row as nat));
                        }
                    } else {
                        assert(w2.archetype_seq()[m0.archetype_id as int] == a0);
                    }
                }
            }
        }
        entity
    }

    /// Spawn a batch of entities with the same component types. Fails with
    /// `BatchTooLarge` above ten million entities; an empty batch spawns
    /// nothing. The recycled-entity count is left alone.
    #[verifier::rlimit(50)]
    pub fn spawn_batch_raw(&mut self, bundles: Vec<Vec<RawComponent>>) -> (r: Result<Vec<EntityId>>)
        requires
            old(self).wf(),
            bundles@.len() <= 10_000_000 ==> old(self).slots() + bundles@.len() <= u32::MAX,
            bundles@.len() > 0 && bundles@.len() <= 10_000_000 ==> old(self).sizes_agree(bundles@[0]@),
            forall|b: int| 0 <= b < bundles@.len() ==> valid_items((#[trigger] bundles@[b])@),
            forall|b: int, i: int| 0 <= b < bundles@.len() && 0 <= i < bundles@[0]@.len() ==> (#[trigger] bundles@[b]@[i]).0 == bundles@[0]@[i].0
                && bundles@[b]@[i].1 == bundles@[0]@[i].1,
            forall|b: int| 0 <= b < bundles@.len() ==> (#[trigger] bundles@[b])@.len() == bundles@[0]@.len(),
        ensures
            final(self).wf(),
            bundles@.len() > 10_000_000 <==> r == Err::<Vec<EntityId>, EcsError>(EcsError::BatchTooLarge),
            bundles@.len() <= 10_000_000 ==> r is Ok,
            r is Err ==> final(self).entries() == old(self).entries() && final(self).archetype_seq() == old(self).archetype_seq(),
            r matches Ok(ids) ==> {
                &&& ids@.len() == bundles@.len()
                &&& forall|k: int| 0 <= k < ids@.len() ==> !old(self).live(#[trigger] ids@[k]) && final(self).live(ids@[k])
                &&& forall|k: int, j: int| 0 <= k < j < ids@.len() ==> ids@[k].key() != ids@[j].key()
                &&& forall|k: int, i: int| 0 <= k < ids@.len() && 0 <= i < bundles@[k]@.len() ==> final(self).component_bytes(
                    ids@[k],
                    #[trigger] bundles@[k]@[i].0,
                ) == Some(bundles@[k]@[i].2@)
                &&& forall|e: EntityId, t: TypeId| old(self).live(e) ==> final(self).live(e) && #[trigger] final(self).component_bytes(e, t)
                    == old(self).component_bytes(e, t)
                &&& forall|e: EntityId| #[trigger] final(self).live(e) ==> old(self).live(e) || exists|k: int|
                    0 <= k < ids@.len() && ids@[k].key() == e.key()
                &&& forall|k: int, i: int| 0 <= k < ids@.len() && 0 <= i < bundles@[k]@.len() ==> final(self).component_ticks(
                    ids@[k],
                    #[trigger] bundles@[k]@[i].0,
                ) == Some((old(self).spec_tick(), old(self).spec_tick()))
                &&& forall|e: EntityId, t: TypeId| old(self).live(e) ==> #[trigger] final(self).component_ticks(e, t)
                    == old(self).component_ticks(e, t)
            },
            final(self).recycled() == old(self).recycled(),
            final(self).spec_tick() == old(self).spec_tick(),
    {
        let count = bundles.len();
        if count > 10_000_000 {
            return Err(EcsError::BatchTooLarge);
        }
        let mut ids: Vec<EntityId> = Vec::new();
        if count == 0 {
            return Ok(ids);
        }
        let aid = self.archetype_for(&bundles[0]);
        let ghost w0 = *self;
        let mut k: usize = 0;
        while k < count
            invariant
                self.wf(),
                count == bundles@.len(),
                count <= 10_000_000,
                k <= count,
                ids@.len() == k,
                self.slots() + (count - k) <= u32::MAX,
                aid < self.archetype_seq().len(),
                self.archetype_seq()[aid as int].spec_signature()@ == item_types(bundles@[0]@),
                forall|i: int| 0 <= i < bundles@[0]@.len() ==> (#[trigger] self.archetype_seq()[aid as int].columns()[i]).spec_item_size() == bundles@[0]@[i].1,
                forall|b: int| 0 <= b < bundles@.len() ==> valid_items((#[trigger] bundles@[b])@),
                forall|b: int, i: int| 0 <= b < bundles@.len() && 0 <= i < bundles@[0]@.len() ==> (#[trigger] bundles@[b]@[i]).0 == bundles@[0]@[i].0
                    && bundles@[b]@[i].1 == bundles@[0]@[i].1,
                forall|b: int| 0 <= b < bundles@.len() ==> (#[trigger] bundles@[b])@.len() == bundles@[0]@.len(),
                forall|x: int| 0 <= x < k ==> !w0.live(#[trigger] ids@[x]) && self.live(ids@[x]),
                forall|x: int, y: int| 0 <= x < y < k ==> ids@[x].key() != ids@[y].key(),
                forall|x: int, i: int| 0 <= x < k && 0 <= i < bundles@[x]@.len() ==> self.component_bytes(
                    ids@[x],
                    #[trigger] bundles@[x]@[i].0,
                ) == Some(bundles@[x]@[i].2@),
                forall|e: EntityId| #[trigger] w0.live(e) ==> self.live(e),
                forall|e: EntityId, t: TypeId| w0.live(e) ==> #[trigger] self.component_bytes(e, t) == w0.component_bytes(e, t),
                forall|e: EntityId| #[trigger] self.live(e) ==> w0.live(e) || exists|x: int| 0 <= x < k && ids@[x].key() == e.key(),
                forall|x: int, i: int| 0 <= x < k && 0 <= i < bundles@[x]@.len() ==> self.component_ticks(
                    ids@[x],
                    #[trigger] bundles@[x]@[i].0,
                ) == Some((w0.spec_tick(), w0.spec_tick())),
                forall|e: EntityId, t: TypeId| w0.live(e) ==> #[trigger] self.component_ticks(e, t) == w0.component_ticks(e, t),
                self.recycled() == w0.recycled(),
                self.spec_tick() == w0.spec_tick(),
            decreases count - k,
        {
            let ghost before = *self;
            proof {
                assert(item_types(bundles@[k as int]@) =~= item_types(bundles@[0]@));
                assert forall|i: int| 0 <= i < bundles@[k as int]@.len() implies (#[trigger] self.archetype_seq()[aid as int].columns()[i]).spec_item_size() == bundles@[k as int]@[i].1 by {
                    assert(bundles@[k as int]@[i].1 == bundles@[0]@[i].1);
                }
            }
            let e = self.spawn_into(&bundles[k], aid);
            proof {
                assert forall|x: int| 0 <= x < k implies ids@[x].key() != e.key() by {
                    assert(before.live(ids@[x]));
                }
                assert forall|x: int, i: int| 0 <= x < k && 0 <= i < bundles@[x]@.len() implies self.component_bytes(
                    ids@[x],
                    #[trigger] bundles@[x]@[i].0,
                ) == Some(bundles@[x]@[i].2@) by {
                    assert(before.live(ids@[x]));
                    assert(ids@[x].key() != e.key());
                    assert(self.component_bytes(ids@[x], bundles@[x]@[i].0) == before.component_bytes(ids@[x], bundles@[x]@[i].0));
                }
                assert forall|e2: EntityId| #[trigger] w0.live(e2) implies self.live(e2) by {
                    assert(before.live(e2));
                    assert(e2.key() != e.key());
                    assert(self.live(e2) == before.live(e2));
                }
                assert forall|e2: EntityId, t: TypeId| w0.live(e2) implies #[trigger] self.component_bytes(e2, t) == w0.component_bytes(e2, t) by {
                    assert(before.live(e2));
                    assert(e2.key() != e.key());
                    assert(self.component_bytes(e2, t) == before.component_bytes(e2, t));
                }
                assert forall|e2: EntityId, t: TypeId| w0.live(e2) implies #[trigger] self.component_ticks(e2, t) == w0.component_ticks(e2, t) by {
                    assert(before.live(e2));
                    assert(e2.key() != e.key());
                    assert(self.component_ticks(e2, t) == before.component_ticks(e2, t));
                }
                assert forall|x: int, i: int| 0 <= x < k && 0 <= i < bundles@[x]@.len() implies self.component_ticks(
                    ids@[x],
                    #[trigger] bundles@[x]@[i].0,
                ) == Some((w0.spec_tick(), w0.spec_tick())) by {
                    assert(before.live(ids@[x]));
                    assert(ids@[x].key() != e.key());
                    assert(self.component_ticks(ids@[x], bundles@[x]@[i].0) == before.component_ticks(ids@[x], bundles@[x]@[i].0));
                }
                assert(!w0.live(e)) by {
                    if w0.live(e) {
                        assert(before.live(e));
                    }
                }
            }
            let ghost ids0 = ids@;
            ids.push(e);
            proof {
                assert forall|x: int| 0 <= x < k implies ids@[x] == ids0[x] by {}
                assert forall|e2: EntityId| #[trigger] self.live(e2) implies w0.live(e2) || exists|x: int| 0 <= x < k + 1 && ids@[x].key() == e2.key() by {
                    if e2.key() != e.key() {
                        assert(before.live(e2));
                        if !w0.live(e2) {
                            let x = choose|x: int| 0 <= x < k && ids0[x].key() == e2.key();
                            assert(ids@[x] == ids0[x]);
                            assert(0 <= x < k + 1 && ids@[x].key() == e2.key());
                        }
                    } else {
                        assert(ids@[k as int] == e);
                    }
                }
            }
            k = k + 1;
        }
        proof {
            assert forall|e: EntityId, t: TypeId| old(self).live(e) implies self.live(e) && #[trigger] self.component_bytes(e, t) == old(self).component_bytes(e, t) by {
                assert(w0.component_bytes(e, t) == old(self).component_bytes(e, t));
                assert(w0.live(e));
            }
            assert forall|x: int| 0 <= x < ids@.len() implies !old(self).live(#[trigger] ids@[x]) && self.live(ids@[x]) by {
                assert(w0.entries() == old(self).entries());
            }
        }
        Ok(ids)
    }
}

impl World {
    /// Clear all entities: no entity stays alive, the recycled count is reset,
    /// and only the archetype of entities without components is left.
    pub fn clear(&mut self)
        requires
            old(self).wf(),
        ensures
            final(self).wf(),
            final(self).entries() == no_entries(),
            final(self).recycled() == 0,
            final(self).archetype_seq().len() == 1,
            final(self).archetype_seq()[0].spec_signature()@ == Seq::<TypeId>::empty(),
            final(self).archetype_seq()[0].rows() == Seq::<EntityId>::empty(),
            final(self).spec_tick() == old(self).spec_tick(),
    {
        table_clear(&mut self.entity_locations);
        self.recycled_entities = 0;
        self.archetypes.clear();
        assert(self.entries().dom() =~= Set::<KeyData>::empty());
        let no_components: Vec<RawComponent> = Vec::new();
        self.create_archetype(&no_components);
        assert(item_types(no_components@) =~= Seq::<TypeId>::empty());
    }
}


/// `new` is `old` with the change tick of row `row` in the column of `t` set
/// to `tick`, and, when `whole` holds, the column's own change tick too.
/// Nothing else differs; a row past the end of the tick list changes nothing.
pub open spec fn column_touched(old: Archetype, new: Archetype, t: TypeId, row: nat, tick: u32, whole: bool) -> bool {
    let ci = old.column_of()[t] as int;
    let c0 = old.columns()[ci];
    let c1 = new.columns()[ci];
    &&& new.rows() == old.rows()
    &&& new.column_of() == old.column_of()
    &&& new.spec_signature() == old.spec_signature()
    &&& new.initialized() == old.initialized()
    &&& new.columns().len() == old.columns().len()
    &&& forall|j: int| 0 <= j < old.columns().len() && j != ci ==> #[trigger] new.columns()[j] == old.columns()[j]
    &&& c1.bytes() == c0.bytes()
    &&& c1.spec_item_size() == c0.spec_item_size()
    &&& c1.added() == c0.added()
    &&& c1.last_added() == c0.last_added()
    &&& c1.changed() == if row < c0.changed().len() {
        c0.changed().update(row as int, tick)
    } else {
        c0.changed()
    }
    &&& c1.last_changed() == if whole && row < c0.changed().len() {
        tick
    } else {
        c0.last_changed()
    }
}

impl World {
    /// Set the change tick of one stored component: that of type `t` in row
    /// `row` of archetype `aid`, to `tick`, and with `whole` the column's own
    /// change tick as well. Where the archetype or the column does not exist
    /// nothing changes.
    fn touch_component(&mut self, aid: usize, row: usize, t: TypeId, tick: u32, whole: bool)
        requires
            old(self).wf(),
        ensures
            final(self).wf(),
            final(self).entries() == old(self).entries(),
            final(self).slots() == old(self).slots(),
            final(self).recycled() == old(self).recycled(),
            final(self).spec_tick() == old(self).spec_tick(),
            final(self).archetype_seq().len() == old(self).archetype_seq().len(),
            forall|b: int| 0 <= b < old(self).archetype_seq().len() && b != aid ==> #[trigger] final(self).archetype_seq()[b]
                == old(self).archetype_seq()[b],
            aid < old(self).archetype_seq().len() && old(self).archetype_seq()[aid as int].column_of().contains_key(t)
                ==> column_touched(
                old(self).archetype_seq()[aid as int],
                final(self).archetype_seq()[aid as int],
                t,
                row as nat,
                tick,
                whole,
            ),
            !(aid < old(self).archetype_seq().len() && old(self).archetype_seq()[aid as int].column_of().contains_key(t))
                ==> *final(self) == *old(self),
    {
        if aid >= self.archetypes.len() {
            return;
        }
        let ghost w0 = *self;
        let ghost a0 = self.archetype_seq()[aid as int];
        let present = match self.archetypes[aid].column_index(t) {
            Some(_) => true,
            None => false,
        };
        if !present {
            return;
        }
        proof {
            assert(a0.wf());
        }
        match self.archetypes[aid].get_column_mut(t) {
            Some(col) => {
                if whole {
                    col.mark_changed(row, tick);
                } else {
                    col.set_changed_tick(row, tick);
                }
            },
            None => {
                proof {
                    assert(false);
                }
                return;
            },
        }
        proof {
            let w1 = *self;
            let a1 = w1.archetype_seq()[aid as int];
            let ci = a0.column_of()[t] as int;
            assert(w1.archetype_seq() == w0.archetype_seq().update(aid as int, a1));
            assert(a1.columns() == a0.columns().update(ci, a1.columns()[ci]));
            assert(a1.wf()) by {
                assert forall|j: int| 0 <= j < a1.columns().len() implies (#[trigger] a1.columns()[j]).ticks_match() by {
                    assert(a0.columns()[j].ticks_match());
                }
                assert forall|x: TypeId| #[trigger] a1.column_of().contains_key(x) implies a1.column_of()[x] < a1.columns().len() by {
                    assert(a0.column_of().contains_key(x));
                }
            }
            let arch = w1.archetype_seq();
            assert forall|k: KeyData| #[trigger] w1.entries().contains_key(k) implies {
                let l = w1.entries()[k];
                &&& l.archetype_id < arch.len()
                &&& l.archetype_row < arch[l.archetype_id as int].rows().len()
                &&& arch[l.archetype_id as int].rows()[l.archetype_row as int].key() == k
            } by {
                assert(w0.entries().contains_key(k));
            }
            assert forall|b: int, r: int| 0 <= b < arch.len() && 0 <= r < arch[b].rows().len() implies {
                &&& w1.entries().contains_key((#[trigger] arch[b].rows()[r]).key())
                &&& w1.entries()[arch[b].rows()[r].key()].archetype_id == b
                &&& w1.entries()[arch[b].rows()[r].key()].archetype_row == r
            } by {
                assert(arch[b].rows() == w0.archetype_seq()[b].rows());
            }
            assert forall|b: int| 0 <= b < arch.len() implies (#[trigger] arch[b]).wf() by {
                if b != aid {
                    assert(arch[b] == w0.archetype_seq()[b]);
                }
            }
            assert forall|b: int, j: int| 0 <= b < arch.len() && 0 <= j < arch[b].columns().len() implies (#[trigger] arch[b].columns()[j]).bytes().len()
                == arch[b].rows().len() * arch[b].columns()[j].spec_item_size() by {
                if b != aid {
                    assert(arch[b] == w0.archetype_seq()[b]);
                } else if j != ci {
                    assert(arch[b].columns()[j] == a0.columns()[j]);
                }
            }
            assert forall|b: int| 0 <= b < arch.len() implies columns_follow_signature(#[trigger] arch[b]) by {
                if b != aid {
                    assert(arch[b] == w0.archetype_seq()[b]);
                } else {
                    assert forall|j: int| 0 <= j < a1.columns().len() implies (#[trigger] a1.columns()[j]).spec_item_size() * (u32::MAX as int) <= usize::MAX by {
                        assert(a0.columns()[j].spec_item_size() * (u32::MAX as int) <= usize::MAX);
                    }
                }
            }
            assert(w1.wf());
        }
    }

    /// Record that the component of type `type_id` in row `row` of archetype
    /// `archetype_id` was written through a query at tick `tick`: the row's
    /// change tick becomes `tick`; the column's own change tick stays.
    pub fn set_changed_tick(&mut self, archetype_id: usize, row: usize, type_id: TypeId, tick: u32)
        requires
            old(self).wf(),
        ensures
            final(self).wf(),
            final(self).entries() == old(self).entries(),
            final(self).slots() == old(self).slots(),
            final(self).recycled() == old(self).recycled(),
            final(self).spec_tick() == old(self).spec_tick(),
            final(self).archetype_seq().len() == old(self).archetype_seq().len(),
            forall|b: int| 0 <= b < old(self).archetype_seq().len() && b != archetype_id ==> #[trigger] final(self).archetype_seq()[b]
                == old(self).archetype_seq()[b],
            archetype_id < old(self).archetype_seq().len() && old(self).archetype_seq()[archetype_id as int].column_of().contains_key(type_id)
                ==> column_touched(
                old(self).archetype_seq()[archetype_id as int],
                final(self).archetype_seq()[archetype_id as int],
                type_id,
                row as nat,
                tick,
                false,
            ),
            !(archetype_id < old(self).archetype_seq().len() && old(self).archetype_seq()[archetype_id as int].column_of().contains_key(type_id))
                ==> *final(self) == *old(self),
    {
        self.touch_component(archetype_id, row, type_id, tick, false);
    }

    /// Record that the entity's component of type `type_id` was handed out for
    /// writing: its change tick, and its column's, become the world's current
    /// tick. Returns whether the entity is alive and has that component;
    /// otherwise nothing changes.
    pub fn mark_component_changed(&mut self, entity: EntityId, type_id: TypeId) -> (r: bool)
        requires
            old(self).wf(),
        ensures
            final(self).wf(),
            r == (old(self).component_bytes(entity, type_id) is Some),
            final(self).entries() == old(self).entries(),
            final(self).slots() == old(self).slots(),
            final(self).recycled() == old(self).recycled(),
            final(self).spec_tick() == old(self).spec_tick(),
            final(self).archetype_seq().len() == old(self).archetype_seq().len(),
            !r ==> *final(self) == *old(self),
            r ==> {
                let l = old(self).location(entity);
                &&& forall|b: int| 0 <= b < old(self).archetype_seq().len() && b != l.archetype_id ==> #[trigger] final(self).archetype_seq()[b]
                    == old(self).archetype_seq()[b]
                &&& column_touched(
                    old(self).archetype_seq()[l.archetype_id as int],
                    final(self).archetype_seq()[l.archetype_id as int],
                    type_id,
                    l.archetype_row as nat,
                    old(self).spec_tick(),
                    true,
                )
            },
    {
        let location = match table_get(&self.entity_locations, entity.data()) {
            Some(l) => l,
            None => {
                return false;
            },
        };
        let found = match self.archetypes[location.archetype_id].column_index(type_id) {
            Some(_) => true,
            None => false,
        };
        if !found {
            return false;
        }
        let tick = self.tick;
        self.touch_component(location.archetype_id, location.archetype_row, type_id, tick, true);
        true
    }
}


impl World {
    /// The stored bytes of the entity's component of type `type_id`; `None`
    /// when the entity is not alive or has no such component.
    pub fn get_component_raw(&self, entity: EntityId, type_id: TypeId) -> (r: Option<&[u8]>)
        requires
            self.wf(),
        ensures
            match r {
                Some(b) => self.component_bytes(entity, type_id) == Some(b@),
                None => self.component_bytes(entity, type_id) is None,
            },
    {
        let location = match table_get(&self.entity_locations, entity.data()) {
            Some(l) => l,
            None => {
                return None;
            },
        };
        let aid = location.archetype_id;
        let row = location.archetype_row;
        let ghost a0 = self.archetype_seq()[aid as int];
        let col = match self.archetypes[aid].get_column(type_id) {
            Some(c) => c,
            None => {
                return None;
            },
        };
        proof {
            let ci = a0.column_of()[type_id] as int;
            let size = a0.columns()[ci].spec_item_size();
            let n = a0.rows().len();
            self.lemma_rows_bounded(aid as int);
            assert(columns_follow_signature(a0));
            assert(a0.columns()[ci].bytes().len() == n * size);
            assert(size * (u32::MAX as int) <= usize::MAX);
            assert(row * size + size <= n * size) by (nonlinear_arith)
                requires
                    row < n,
            ;
            assert(n * size <= usize::MAX) by (nonlinear_arith)
                requires
                    n < u32::MAX,
                    size * (u32::MAX as int) <= usize::MAX,
            ;
        }
        col.get_item(row)
    }

    /// Whether the entity is alive and has a component of type `type_id`.
    pub fn has_component(&self, entity: EntityId, type_id: TypeId) -> (r: bool)
        requires
            self.wf(),
        ensures
            r == (self.component_bytes(entity, type_id) is Some),
    {
        match self.get_component_raw(entity, type_id) {
            Some(_) => true,
            None => false,
        }
    }
}

} // verus!
