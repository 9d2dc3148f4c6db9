//! The eviction choice of the asset cache.

use vstd::prelude::*;

verus! {

/// Entry `k` of `(id, last access)` pairs is the one the cache evicts: its
/// access time is below `u64::MAX` and below that of every earlier entry, and
/// no entry was accessed earlier.
pub open spec fn is_victim(entries: Seq<(u64, u64)>, k: int) -> bool {
    &&& 0 <= k < entries.len()
    &&& entries[k].1 < u64::MAX
    &&& forall|j: int| 0 <= j < entries.len() ==> entries[k].1 <= #[trigger] entries[j].1
    &&& forall|j: int| 0 <= j < k ==> entries[k].1 < #[trigger] entries[j].1
}

/// The ID of the least recently accessed entry, the first such one on a tie;
/// `None` when there is no entry accessed before `u64::MAX`.
pub fn lru_victim(entries: &[(u64, u64)]) -> (r: Option<u64>)
    ensures
        r is None <==> forall|j: int| 0 <= j < entries@.len() ==> #[trigger] entries@[j].1 == u64::MAX,
        r matches Some(id) ==> exists|k: int| is_victim(entries@, k) && entries@[k].0 == id,
{
    let mut oldest_id: Option<u64> = None;
    let mut oldest_time: u64 = u64::MAX;
    let ghost mut at: int = -1;
    let mut i: usize = 0;
    while i < entries.len()
        invariant
            i <= entries@.len(),
            oldest_id is None ==> oldest_time == u64::MAX && forall|j: int| 0 <= j < i ==> #[trigger] entries@[j].1 == u64::MAX,
            oldest_id is Some ==> 0 <= at < i && entries@[at].1 == oldest_time && oldest_time < u64::MAX
                && oldest_id == Some(entries@[at].0),
            oldest_id is Some ==> forall|j: int| 0 <= j < at ==> oldest_time < #[trigger] entries@[j].1,
            forall|j: int| 0 <= j < i ==> oldest_time <= #[trigger] entries@[j].1,
        decreases entries@.len() - i,
    {
        let (id, time) = entries[i];
        if time < oldest_time {
            oldest_time = time;
            oldest_id = Some(id);
            proof {
                at = i as int;
            }
        }
        i = i + 1;
    }
    proof {
        if oldest_id is Some {
            assert(is_victim(entries@, at));
        } else {
            assert forall|j: int| 0 <= j < entries@.len() implies #[trigger] entries@[j].1 == u64::MAX by {}
        }
    }
    oldest_id
}

} // verus!
