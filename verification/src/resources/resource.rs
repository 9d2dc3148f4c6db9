//! The resource trait and resource statistics.

use crate::error::Result;
use std::any::TypeId;
use vstd::prelude::*;

verus! {

/// Core trait for any loadable resource
pub trait Resource: Send + Sync + 'static {
    /// Get file path of this resource
    fn get_path(&self) -> &str;

    /// Get approximate size in bytes
    fn get_size(&self) -> usize;

    /// Get resource type name
    fn get_type_name(&self) -> &str;

    /// Get type ID for dynamic dispatch
    fn get_type_id(&self) -> TypeId;

    /// Unload resource, freeing memory
    fn unload(&mut self) -> Result<()>;

    /// Reload resource from disk
    fn reload(&mut self) -> Result<()>;

    /// Check if resource is valid
    fn is_valid(&self) -> bool;
}

/// Resource statistics
#[derive(Clone, Debug)]
pub struct ResourceStats {
    pub total_resources: usize,
    pub total_memory_used: usize,
    pub cache_hits: u64,
    pub cache_misses: u64,
    pub load_time_ms: u64,
    pub unload_time_ms: u64,
}

impl ResourceStats {
    pub fn new() -> (s: Self)
        ensures
            s.total_resources == 0,
            s.total_memory_used == 0,
            s.cache_hits == 0,
            s.cache_misses == 0,
            s.load_time_ms == 0,
            s.unload_time_ms == 0,
    {
        ResourceStats {
            total_resources: 0,
            total_memory_used: 0,
            cache_hits: 0,
            cache_misses: 0,
            load_time_ms: 0,
            unload_time_ms: 0,
        }
    }
}

impl Default for ResourceStats {
    fn default() -> (s: Self)
        ensures
            s.total_resources == 0,
            s.total_memory_used == 0,
            s.cache_hits == 0,
            s.cache_misses == 0,
            s.load_time_ms == 0,
            s.unload_time_ms == 0,
    {
        Self::new()
    }
}

} // verus!
