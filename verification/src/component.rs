//! Component marker trait.

use vstd::prelude::*;

verus! {

/// Maximum number of components supported by bundles
pub const MAX_BUNDLE_COMPONENTS: usize = 8;

/// Marker trait for components: any `'static` type that can be shared
/// between threads.
pub trait Component: 'static + Send + Sync {
}

impl<T: 'static + Send + Sync> Component for T {
}

} // verus!
