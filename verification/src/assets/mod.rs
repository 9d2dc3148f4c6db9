//! Asset handles and the asset trait.

pub mod cache;
pub mod loader;

use std::marker::PhantomData;
use vstd::prelude::*;

verus! {

/// Trait for assets that can be loaded
pub trait Asset: Send + Sync + 'static {
    /// Get approximate memory size in bytes
    fn memory_size(&self) -> usize {
        std::mem::size_of_val(self)
    }

    /// Called when asset is unloaded
    fn on_unload(&mut self) {
    }
}

/// Strong handle to an asset
#[derive(Copy, Debug, PartialEq, Eq, Hash)]
pub struct AssetHandle<T: Asset> {
    id: u64,
    generation: u32,
    _phantom: PhantomData<T>,
}

impl<T: Asset> Clone for AssetHandle<T> {
    fn clone(&self) -> (h: Self)
        ensures
            h == *self,
    {
        AssetHandle { id: self.id, generation: self.generation, _phantom: PhantomData }
    }
}

impl<T: Asset> AssetHandle<T> {
    /// The asset's ID.
    pub closed spec fn spec_id(&self) -> u64 {
        self.id
    }

    /// The asset's generation.
    pub closed spec fn spec_generation(&self) -> u32 {
        self.generation
    }

    pub fn new(id: u64, generation: u32) -> (h: Self)
        ensures
            h.spec_id() == id,
            h.spec_generation() == generation,
    {
        AssetHandle { id, generation, _phantom: PhantomData }
    }

    pub fn id(&self) -> (r: u64)
        ensures
            r == self.spec_id(),
    {
        self.id
    }

    pub fn generation(&self) -> (r: u32)
        ensures
            r == self.spec_generation(),
    {
        self.generation
    }
}

/// Weak handle that doesn't prevent asset unloading
#[derive(Copy, Debug)]
pub struct WeakAssetHandle<T: Asset> {
    id: u64,
    _phantom: PhantomData<T>,
}

impl<T: Asset> Clone for WeakAssetHandle<T> {
    fn clone(&self) -> (h: Self)
        ensures
            h == *self,
    {
        WeakAssetHandle { id: self.id, _phantom: PhantomData }
    }
}

impl<T: Asset> WeakAssetHandle<T> {
    /// The asset's ID.
    pub closed spec fn spec_id(&self) -> u64 {
        self.id
    }

    pub fn new(id: u64) -> (h: Self)
        ensures
            h.spec_id() == id,
    {
        WeakAssetHandle { id, _phantom: PhantomData }
    }

    pub fn id(&self) -> (r: u64)
        ensures
            r == self.spec_id(),
    {
        self.id
    }
}

} // verus!
