//! The decisions of frame execution: which system runs next, and when a frame
//! ends and with what result. Running the systems themselves is left to the
//! caller, which hands each outcome back.

use crate::dependency::ExecutionStage;
use crate::error::{EcsError, Result};
use vstd::prelude::*;

verus! {

/// What the sequential executor does next.
#[derive(Debug)]
pub enum FrameAction {
    /// Run the system at position `system` of the schedule; it stands at
    /// slot `slot` of stage `stage`.
    Run { stage: usize, slot: usize, system: usize },
    /// The frame is over, with this result.
    Done(Result<()>),
}

/// What the parallel executor does next.
#[derive(Debug)]
pub enum StageAction {
    /// Run every system of stage `stage` at once and hand back their
    /// results in stage order.
    RunStage(usize),
    /// The frame is over, with this result.
    Done(Result<()>),
}

/// Slot `(s, i)` holds a system.
pub open spec fn occupied(stages: Seq<ExecutionStage>, s: int, i: int) -> bool {
    0 <= s < stages.len() && 0 <= i < stages[s].system_indices@.len()
}

/// `p` comes no later than `q` in (stage, slot) order.
pub open spec fn slot_le(p: (int, int), q: (int, int)) -> bool {
    p.0 < q.0 || (p.0 == q.0 && p.1 <= q.1)
}

/// No slot from `from` on, and before `to`, holds a system.
pub open spec fn empty_between(stages: Seq<ExecutionStage>, from: (int, int), to: (int, int)) -> bool {
    forall|s: int, i: int|
        slot_le(from, (s, i)) && slot_le((s, i), to) && (s, i) != to ==> !#[trigger] occupied(stages, s, i)
}

/// No slot from `from` on holds a system.
pub open spec fn empty_from(stages: Seq<ExecutionStage>, from: (int, int)) -> bool {
    forall|s: int, i: int| slot_le(from, (s, i)) ==> !#[trigger] occupied(stages, s, i)
}

/// The first result of `results` that is an error, with its position.
pub open spec fn first_error(results: Seq<Result<()>>, k: int) -> bool {
    &&& 0 <= k < results.len()
    &&& results[k] is Err
    &&& forall|j: int| 0 <= j < k ==> #[trigger] results[j] is Ok
}

/// One step of running a frame stage by stage, system by system: `last` is
/// the outcome of the system run before (`None` at the start of the frame)
/// and `pos` the (stage, slot) to look at next. An error ends the frame with
/// that error; otherwise the next system in stage order runs, or the frame
/// ends with `Err(SystemNotFound)` when it names no system of the schedule
/// (which has `system_count` systems), or ends with `Ok` when no system is
/// left.
pub fn frame_step(stages: &[ExecutionStage], system_count: usize, pos: (usize, usize), last: Option<Result<()>>) -> (r: FrameAction)
    ensures
        match last {
            Some(Err(e)) => r == FrameAction::Done(Err(e)),
            _ => match r {
            FrameAction::Run { stage, slot, system } => {
                &&& slot_le((pos.0 as int, pos.1 as int), (stage as int, slot as int))
                &&& occupied(stages@, stage as int, slot as int)
                &&& empty_between(stages@, (pos.0 as int, pos.1 as int), (stage as int, slot as int))
                &&& system == stages@[stage as int].system_indices@[slot as int]
                &&& system < system_count
            },
            FrameAction::Done(Ok(())) => empty_from(stages@, (pos.0 as int, pos.1 as int)),
            FrameAction::Done(Err(e)) => {
                &&& e == EcsError::SystemNotFound
                &&& exists|s: int, i: int| {
                    &&& slot_le((pos.0 as int, pos.1 as int), (s, i))
                    &&& #[trigger] occupied(stages@, s, i)
                    &&& empty_between(stages@, (pos.0 as int, pos.1 as int), (s, i))
                    &&& stages@[s].system_indices@[i] >= system_count
                }
            },
            },
        },
{
    match last {
        Some(Err(e)) => {
            return FrameAction::Done(Err(e));
        },
        _ => {},
    }
    let mut s: usize = pos.0;
    let mut i: usize = pos.1;
    while s < stages.len()
        invariant
            !(last matches Some(Err(_))),
            slot_le((pos.0 as int, pos.1 as int), (s as int, i as int)),
            empty_between(stages@, (pos.0 as int, pos.1 as int), (s as int, i as int)),
        decreases stages@.len() - s,
    {
        if i < stages[s].system_indices.len() {
            let system = stages[s].system_indices[i];
            if system >= system_count {
                assert(occupied(stages@, s as int, i as int));
                return FrameAction::Done(Err(EcsError::SystemNotFound));
            }
            return FrameAction::Run { stage: s, slot: i, system };
        }
        s = s + 1;
        i = 0;
    }
    FrameAction::Done(Ok(()))
}

/// Run stage `next` if there is one, else end the frame with `Ok`.
pub open spec fn next_stage(stages: Seq<ExecutionStage>, next: usize) -> StageAction {
    if next < stages.len() {
        StageAction::RunStage(next)
    } else {
        StageAction::Done(Ok(()))
    }
}

/// One step of running a frame a whole stage at a time: `last` holds the
/// results of the stage run before, in stage order (`None` at the start of
/// the frame), and `next` is the stage to run next. A stage with an error
/// ends the frame with its first error; otherwise stage `next` runs, or the
/// frame ends with `Ok` after the last stage.
pub fn parallel_frame_step(stages: &[ExecutionStage], next: usize, last: Option<Vec<Result<()>>>) -> (r: StageAction)
    ensures
        match last {
            Some(results) => if exists|k: int| first_error(results@, k) {
                exists|k: int| #[trigger] first_error(results@, k) && r == StageAction::Done(results@[k])
            } else {
                r == next_stage(stages@, next)
            },
            None => r == next_stage(stages@, next),
        },
{
    match last {
        Some(mut results) => {
            let ghost all = results@;
            let mut k: usize = 0;
            while k < results.len()
                invariant
                    results@ == all,
                    last is Some && last->Some_0@ == all,
                    k <= all.len(),
                    forall|j: int| 0 <= j < k ==> #[trigger] all[j] is Ok,
                decreases all.len() - k,
            {
                if results[k].is_err() {
                    assert(first_error(all, k as int));
                    let e = results.remove(k);
                    assert(e == all[k as int]);
                    assert(last->Some_0@ == all);
                    assert(first_error(all, k as int) && StageAction::Done(e) == StageAction::Done(all[k as int]));
                    return StageAction::Done(e);
                }
                k = k + 1;
            }
            assert forall|k2: int| !first_error(all, k2) by {
                if 0 <= k2 < all.len() {
                    assert(all[k2] is Ok);
                }
            }
        },
        None => {},
    }
    if next < stages.len() {
        StageAction::RunStage(next)
    } else {
        StageAction::Done(Ok(()))
    }
}

} // verus!
