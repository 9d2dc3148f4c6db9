//! Chunking of component slices into 256-bit-wide pieces.

use std::slice::ChunksExactMut;
use vstd::layout::size_of;
use vstd::prelude::*;

verus! {

#[verifier::external_type_specification]
#[verifier::external_body]
#[verifier::reject_recursive_types(T)]
pub struct ExChunksExactMut<'a, T: 'a>(ChunksExactMut<'a, T>);

/// Calls `<[T]>::chunks_exact_mut`, which panics on a zero chunk size;
/// nothing is claimed of the iterator it returns.
#[verifier::external_body]
fn chunks_exact_mut_of<T>(data: &mut [T], size: usize) -> ChunksExactMut<'_, T>
    requires
        size > 0,
{
    data.chunks_exact_mut(size)
}

/// Elements of `T` per 32-byte register; 1 for zero-sized types and for
/// sizes that do not divide 32.
pub open spec fn chunk_len(size: nat) -> nat {
    if size == 0 {
        1
    } else if 32nat % size == 0 {
        32nat / size
    } else {
        1
    }
}

/// Returns optimal SIMD chunk size for type T
/// Target: 256-bit AVX2 registers (32 bytes)
pub fn chunk_size<T>() -> (n: usize)
    ensures
        n == chunk_len(size_of::<T>()),
        n > 0,
{
    let type_size = std::mem::size_of::<T>();
    if type_size == 0 {
        return 1;
    }
    let target_bytes: usize = 32;
    if target_bytes % type_size == 0 {
        proof {
            if type_size > 32 {
                assert(target_bytes % type_size == target_bytes) by (nonlinear_arith)
                    requires
                        type_size > 32,
                        target_bytes == 32,
                ;
            }
            assert(target_bytes / type_size >= 1) by (nonlinear_arith)
                requires
                    target_bytes == 32,
                    1 <= type_size <= 32,
            ;
        }
        target_bytes / type_size
    } else {
        1
    }
}

/// The element ranges `[start, end)` of the whole chunks of `chunk` elements
/// in a slice of `len` elements, in order; a shorter tail is left out.
pub fn chunk_bounds(len: usize, chunk: usize) -> (r: Vec<(usize, usize)>)
    requires
        chunk > 0,
    ensures
        r@.len() == len / chunk,
        forall|k: int| 0 <= k < r@.len() ==> (#[trigger] r@[k]).0 == k * chunk && r@[k].1 == (k + 1) * chunk,
        r@.len() * chunk <= len,
{
    let mut r: Vec<(usize, usize)> = Vec::new();
    let mut start: usize = 0;
    proof {
        assert(r@.len() * chunk == 0) by (nonlinear_arith)
            requires
                r@.len() == 0,
        ;
    }
    while chunk <= len - start && start <= len
        invariant
            chunk > 0,
            start <= len,
            start == r@.len() * chunk,
            forall|k: int| 0 <= k < r@.len() ==> (#[trigger] r@[k]).0 == k * chunk && r@[k].1 == (k + 1) * chunk,
        decreases len - start,
    {
        proof {
            assert((r@.len() + 1) * chunk == r@.len() * chunk + chunk) by (nonlinear_arith);
        }
        r.push((start, start + chunk));
        start = start + chunk;
    }
    proof {
        let n = r@.len() as int;
        assert(len - start < chunk);
        assert(len == n * chunk + (len - start));
        vstd::arithmetic::div_mod::lemma_fundamental_div_mod_converse(len as int, chunk as int, n, (len - start) as int);
    }
    r
}

/// Split data into SIMD-sized chunks: whole chunks of `chunk_size::<T>()`
/// elements from the start, the slices of `data` at the ranges that
/// `chunk_bounds(data.len(), chunk_size::<T>())` gives; a shorter tail is
/// left out.
pub fn chunks<T>(data: &mut [T]) -> ChunksExactMut<'_, T> {
    let size = chunk_size::<T>();
    chunks_exact_mut_of(data, size)
}

} // verus!
