//! Built-in systems and components.

pub mod input;
pub mod transform;
