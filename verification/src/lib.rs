//! Archetype ECS: an entity component system whose scheduling, storage and
//! bookkeeping logic is verified with Verus.

pub mod archetype;
pub mod assets;
pub mod bitset;
pub mod builtin;
pub mod component;
pub mod dependency;
pub mod entity;
pub mod error;
pub mod event;
pub mod event_bus;
pub mod event_subscriber;
pub mod event_types;
pub mod executor;
pub mod hierarchy;
pub mod hierarchy_system;
pub mod hot_reload;
pub mod observer;
pub mod profiling;
pub mod query;
pub mod resources;
pub mod schedule;
pub mod simd;
pub mod system;
pub mod time;
pub mod world;
