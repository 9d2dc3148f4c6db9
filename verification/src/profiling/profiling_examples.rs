//! Example profiling patterns. Each pattern opens a span named after the
//! work it measures (a system, a batch spawn, a query) and records counts on
//! it; the functions stand for the patterns and do nothing themselves.

use vstd::prelude::*;

verus! {

/// Basic system profiling: one span around a system's run.
pub fn basic_system_profiling() {
}

/// Advanced profiling with custom metrics recorded on the span.
pub fn advanced_profiling() {
}

/// Batch operation profiling: one span around a batch spawn.
pub fn batch_operation_profiling() {
}

/// Query performance profiling: one span around a query's iteration.
pub fn query_performance_profiling() {
}

} // verus!
