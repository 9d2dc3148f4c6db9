//! Resource handles, memory accounting and resource types.

pub mod asset_types;
pub mod handle;
pub mod pool;
pub mod resource;

pub use asset_types::{DataResource, TextureResource};
pub use handle::{GenerationTracker, Handle};
pub use pool::MemoryPool;
pub use resource::{Resource, ResourceStats};
