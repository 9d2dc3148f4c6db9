//! Entity identifiers and location metadata.

use slotmap::KeyData;
use vstd::prelude::*;

verus! {

#[verifier::external_type_specification]
#[verifier::external_body]
pub struct ExKeyData(KeyData);

/// Compares two slotmap keys with `==`. `KeyData` derives `PartialEq` over its
/// two fields (slot index and version), so the comparison holds exactly when
/// both keys are the same value.
#[verifier::external_body]
fn key_data_eq(a: &KeyData, b: &KeyData) -> (r: bool)
    ensures
        r == (*a == *b),
{
    *a == *b
}

/// Unique entity identifier backed by slotmap's generational keys.
#[derive(Copy, Clone, PartialEq, Eq, PartialOrd, Ord, Hash, Debug)]
pub struct EntityId(KeyData);

impl EntityId {
    /// The slotmap key of this identifier.
    pub closed spec fn key(self) -> KeyData {
        self.0
    }

    /// The key this identifier stands for.
    pub fn data(&self) -> (k: KeyData)
        ensures
            k == self.key(),
    {
        self.0
    }

    /// Whether two identifiers name the same entity.
    pub fn same(&self, other: &EntityId) -> (r: bool)
        ensures
            r == (*self == *other),
    {
        proof {
            assert((self.0 == other.0) ==> (*self == *other));
        }
        key_data_eq(&self.0, &other.0)
    }
}

/// Two identifiers with the same key are the same identifier.
pub proof fn lemma_key_identifies(a: EntityId, b: EntityId)
    ensures
        a.key() == b.key() <==> a == b,
{
}

impl From<KeyData> for EntityId {
    fn from(k: KeyData) -> (r: Self)
        ensures
            r.key() == k,
    {
        EntityId(k)
    }
}

impl vstd::std_specs::convert::FromSpecImpl<KeyData> for EntityId {
    open spec fn obeys_from_spec() -> bool {
        true
    }

    closed spec fn from_spec(v: KeyData) -> EntityId {
        EntityId(v)
    }
}

/// Entity location in archetype (archetype_id, row)
#[derive(Debug, Clone, Copy, PartialEq, Eq, Structural)]
pub struct EntityLocation {
    pub archetype_id: usize,
    pub archetype_row: usize,
}

} // verus!
