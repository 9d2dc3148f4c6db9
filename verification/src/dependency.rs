//! Execution stages built from the conflicts between systems.

use crate::bitset::{BitSet, OnesIter};
use crate::system::{accesses_conflict, lemma_conflict_symmetric, SystemAccess};
use rustc_hash::{FxBuildHasher, FxHashSet};
use std::collections::VecDeque;
use vstd::prelude::*;

verus! {

#[verifier::external_type_specification]
#[verifier::external_body]
pub struct ExFxBuildHasher(FxBuildHasher);

/// Calls `HashSet::insert` on a set hashed with rustc-hash's `FxBuildHasher`.
/// `FxBuildHasher` hands out `FxHasher`s that start from the same fixed state,
/// so equal keys hash equally and the set behaves as a mathematical set: the
/// contract claims that the key is afterwards a member and nothing else changed.
#[verifier::external_body]
fn fx_set_insert(set: &mut FxHashSet<usize>, key: usize)
    ensures
        final(set)@ == old(set)@.insert(key),
{
    set.insert(key);
}

/// Calls `HashSet::contains` on a set hashed with rustc-hash's
/// `FxBuildHasher`; the contract claims the answer is membership in the set.
#[verifier::external_body]
fn fx_set_contains(set: &FxHashSet<usize>, key: usize) -> (r: bool)
    ensures
        r == set@.contains(key),
{
    set.contains(&key)
}

/// Calls `FxHashSet::default()`, which creates an empty set.
#[verifier::external_body]
fn fx_set_new() -> (set: FxHashSet<usize>)
    ensures
        set@ == Set::<usize>::empty(),
{
    FxHashSet::default()
}

/// System `j` must wait for system `i`: `i` comes first and the two conflict.
pub open spec fn depends(acc: Seq<SystemAccess>, i: int, j: int) -> bool {
    0 <= i < j < acc.len() && accesses_conflict(acc[i], acc[j])
}

/// Number of dependency edges on the longest chain that ends at system `j`.
pub open spec fn level(acc: Seq<SystemAccess>, j: nat) -> nat
    decreases j, j + 1,
{
    pred_level(acc, j, j)
}

/// Largest `level(i) + 1` over the systems `i < k` that `j` depends on (0 if none).
pub open spec fn pred_level(acc: Seq<SystemAccess>, j: nat, k: nat) -> nat
    decreases j, k,
{
    if k == 0 || k > j {
        0
    } else {
        let rest = pred_level(acc, j, (k - 1) as nat);
        if depends(acc, k - 1, j as int) {
            let via = level(acc, (k - 1) as nat) + 1;
            if via > rest {
                via
            } else {
                rest
            }
        } else {
            rest
        }
    }
}

/// Number of systems below `k` that `j` depends on and that are not in `done`.
pub open spec fn pending_preds(acc: Seq<SystemAccess>, j: int, done: Seq<usize>, k: int) -> nat
    decreases k,
{
    if k <= 0 {
        0
    } else {
        let rest = pending_preds(acc, j, done, k - 1);
        if depends(acc, k - 1, j) && !done.contains((k - 1) as usize) {
            rest + 1
        } else {
            rest
        }
    }
}

/// Largest `level(i) + 1` over the systems `i < k` in `done` that `j` depends on.
pub open spec fn done_level(acc: Seq<SystemAccess>, j: int, done: Seq<usize>, k: int) -> nat
    decreases k,
{
    if k <= 0 {
        0
    } else {
        let rest = done_level(acc, j, done, k - 1);
        if depends(acc, k - 1, j) && done.contains((k - 1) as usize) {
            let via = level(acc, (k - 1) as nat) + 1;
            if via > rest {
                via
            } else {
                rest
            }
        } else {
            rest
        }
    }
}

proof fn lemma_pred_level_ge(acc: Seq<SystemAccess>, i: nat, j: nat, k: nat)
    requires
        i < k <= j,
        depends(acc, i as int, j as int),
    ensures
        pred_level(acc, j, k) >= level(acc, i) + 1,
    decreases k,
{
    if i < k - 1 {
        lemma_pred_level_ge(acc, i, j, (k - 1) as nat);
    }
}

/// A system's level exceeds the level of every system it depends on.
pub proof fn lemma_level_increases(acc: Seq<SystemAccess>, i: nat, j: nat)
    requires
        depends(acc, i as int, j as int),
    ensures
        level(acc, j) >= level(acc, i) + 1,
{
    lemma_pred_level_ge(acc, i, j, j);
}

proof fn lemma_pred_level_witness(acc: Seq<SystemAccess>, j: nat, k: nat)
    requires
        k <= j,
        pred_level(acc, j, k) > 0,
    ensures
        exists|i: nat|
            i < k && depends(acc, i as int, j as int) && level(acc, i) + 1 == pred_level(
                acc,
                j,
                k,
            ),
    decreases k,
{
    let rest = pred_level(acc, j, (k - 1) as nat);
    if depends(acc, k - 1, j as int) && level(acc, (k - 1) as nat) + 1 > rest {
        let i = (k - 1) as nat;
        assert(i < k && depends(acc, i as int, j as int) && level(acc, i) + 1 == pred_level(
            acc,
            j,
            k,
        ));
    } else {
        lemma_pred_level_witness(acc, j, (k - 1) as nat);
        let i = choose|i: nat|
            i < k - 1 && depends(acc, i as int, j as int) && level(acc, i) + 1 == pred_level(
                acc,
                j,
                (k - 1) as nat,
            );
        assert(i < k && depends(acc, i as int, j as int) && level(acc, i) + 1 == pred_level(
            acc,
            j,
            k,
        ));
    }
}

proof fn lemma_pred_level_bound(acc: Seq<SystemAccess>, j: nat, k: nat)
    requires
        k <= j,
    ensures
        pred_level(acc, j, k) <= k,
    decreases j, k,
{
    if k > 0 {
        lemma_pred_level_bound(acc, j, (k - 1) as nat);
        lemma_pred_level_bound(acc, (k - 1) as nat, (k - 1) as nat);
        assert(level(acc, (k - 1) as nat) == pred_level(acc, (k - 1) as nat, (k - 1) as nat));
        assert(level(acc, (k - 1) as nat) <= k - 1);
    }
}

/// A system's level never exceeds its index.
pub proof fn lemma_level_bound(acc: Seq<SystemAccess>, j: nat)
    ensures
        level(acc, j) <= j,
{
    lemma_pred_level_bound(acc, j, j);
}

/// Every level up to that of `v` is the level of some system at or before `v`.
pub proof fn lemma_levels_dense(acc: Seq<SystemAccess>, v: nat, d: nat)
    requires
        d <= level(acc, v),
    ensures
        exists|u: nat| u <= v && level(acc, u) == d,
    decreases level(acc, v) - d,
{
    if d == level(acc, v) {
        assert(level(acc, v) == d);
    } else {
        lemma_pred_level_witness(acc, v, v);
        let i = choose|i: nat|
            i < v && depends(acc, i as int, v as int) && level(acc, i) + 1 == pred_level(acc, v, v);
        lemma_levels_dense(acc, i, d);
        let u = choose|u: nat| u <= i && level(acc, u) == d;
        assert(u <= v && level(acc, u) == d);
    }
}

proof fn lemma_pending_after_done(acc: Seq<SystemAccess>, j: int, done: Seq<usize>, node: usize, k: int)
    requires
        !done.contains(node),
        k <= usize::MAX,
    ensures
        pending_preds(acc, j, done.push(node), k) + (if node < k && depends(acc, node as int, j) {
            1int
        } else {
            0int
        }) == pending_preds(acc, j, done, k),
    decreases k,
{
    broadcast use vstd::seq_lib::group_seq_properties;

    if k > 0 {
        lemma_pending_after_done(acc, j, done, node, k - 1);
        assert(done.push(node).contains((k - 1) as usize) == (done.contains((k - 1) as usize) || (
        k - 1) as usize == node));
    }
}

proof fn lemma_done_level_after_done(acc: Seq<SystemAccess>, j: int, done: Seq<usize>, node: usize, k: int)
    requires
        !done.contains(node),
        k <= usize::MAX,
    ensures
        done_level(acc, j, done.push(node), k) == if node < k && depends(acc, node as int, j) {
            let via = level(acc, node as nat) + 1;
            if via > done_level(acc, j, done, k) {
                via
            } else {
                done_level(acc, j, done, k)
            }
        } else {
            done_level(acc, j, done, k)
        },
    decreases k,
{
    broadcast use vstd::seq_lib::group_seq_properties;

    if k > 0 {
        lemma_done_level_after_done(acc, j, done, node, k - 1);
        assert(done.push(node).contains((k - 1) as usize) == (done.contains((k - 1) as usize) || (
        k - 1) as usize == node));
    }
}

proof fn lemma_done_level_complete(acc: Seq<SystemAccess>, j: nat, done: Seq<usize>, k: nat)
    requires
        k <= j,
        pending_preds(acc, j as int, done, k as int) == 0,
    ensures
        done_level(acc, j as int, done, k as int) == pred_level(acc, j, k),
    decreases k,
{
    if k > 0 {
        lemma_done_level_complete(acc, j, done, (k - 1) as nat);
    }
}

proof fn lemma_past_self(acc: Seq<SystemAccess>, j: int, done: Seq<usize>, k: int)
    requires
        0 <= j <= k,
    ensures
        pending_preds(acc, j, done, k) == pending_preds(acc, j, done, j),
        done_level(acc, j, done, k) == done_level(acc, j, done, j),
    decreases k,
{
    if k > j {
        lemma_past_self(acc, j, done, k - 1);
    }
}

proof fn lemma_all_done_no_pending(acc: Seq<SystemAccess>, j: int, done: Seq<usize>, k: int)
    requires
        forall|u: int| 0 <= u < k ==> #[trigger] done.contains(u as usize),
    ensures
        pending_preds(acc, j, done, k) == 0,
    decreases k,
{
    if k > 0 {
        lemma_all_done_no_pending(acc, j, done, k - 1);
    }
}

proof fn lemma_none_done(acc: Seq<SystemAccess>, j: int, k: int)
    ensures
        done_level(acc, j, Seq::<usize>::empty(), k) == 0,
    decreases k,
{
    if k > 0 {
        lemma_none_done(acc, j, k - 1);
    }
}


proof fn lemma_pending_bound(acc: Seq<SystemAccess>, j: int, done: Seq<usize>, k: int)
    requires
        k >= 0,
    ensures
        pending_preds(acc, j, done, k) <= k,
    decreases k,
{
    if k > 0 {
        lemma_pending_bound(acc, j, done, k - 1);
    }
}

proof fn lemma_distinct_bounded(s: Seq<usize>, n: usize)
    requires
        s.no_duplicates(),
        forall|i: int| 0 <= i < s.len() ==> #[trigger] s[i] < n,
    ensures
        s.len() <= n,
{
    s.unique_seq_to_set();
    let r = Set::<usize>::range(0usize, n);
    vstd::set_lib::range_set_properties::<usize>(0usize, n);
    assert forall|x: usize| s.to_set().contains(x) implies r.contains(x) by {
        let i = choose|i: int| 0 <= i < s.len() && s[i] == x;
        assert(s[i] < n);
    }
    vstd::set_lib::lemma_len_subset(s.to_set(), r);
}

proof fn lemma_everything_done(acc: Seq<SystemAccess>, n: int, done: Seq<usize>, deg: Seq<usize>, k: int)
    requires
        0 <= k <= n <= usize::MAX,
        deg.len() == n,
        forall|v: int| 0 <= v < n ==> #[trigger] deg[v] == pending_preds(acc, v, done, n),
        forall|v: usize| v < n ==> (done.contains(v) <==> #[trigger] deg[v as int] == 0),
    ensures
        forall|v: usize| v < k ==> #[trigger] done.contains(v),
    decreases k,
{
    if k > 0 {
        lemma_everything_done(acc, n, done, deg, k - 1);
        let v = k - 1;
        lemma_all_done_no_pending(acc, v, done, v);
        lemma_past_self(acc, v, done, n);
        assert(deg[v] == 0);
        assert(done.contains(v as usize));
    }
}

/// Systems at the same level never conflict.
pub proof fn lemma_same_level_no_conflict(acc: Seq<SystemAccess>, x: nat, y: nat)
    requires
        x != y,
        x < acc.len(),
        y < acc.len(),
        level(acc, x) == level(acc, y),
    ensures
        !accesses_conflict(acc[x as int], acc[y as int]),
{
    lemma_conflict_symmetric(acc[x as int], acc[y as int]);
    if x < y && accesses_conflict(acc[x as int], acc[y as int]) {
        lemma_level_increases(acc, x, y);
    }
    if y < x && accesses_conflict(acc[y as int], acc[x as int]) {
        lemma_level_increases(acc, y, x);
    }
}

/// The systems that depend directly on system `i`.
pub open spec fn dependents(acc: Seq<SystemAccess>, i: int) -> Set<nat> {
    Set::new(|j: nat| depends(acc, i, j as int))
}

proof fn lemma_push_contains(a: Seq<usize>, x: usize, v: usize)
    ensures
        a.push(x).contains(v) <==> (a.contains(v) || v == x),
{
    if a.push(x).contains(v) {
        let k = choose|k: int| 0 <= k < a.push(x).len() && a.push(x)[k] == v;
        if k < a.len() {
            assert(a[k] == v);
        }
    }
    if a.contains(v) {
        let k = choose|k: int| 0 <= k < a.len() && a[k] == v;
        assert(a.push(x)[k] == v);
    }
    if v == x {
        assert(a.push(x)[a.len() as int] == v);
    }
}

proof fn lemma_concat_contains(a: Seq<usize>, b: Seq<usize>, v: usize)
    ensures
        (a + b).contains(v) <==> (a.contains(v) || b.contains(v)),
{
    if (a + b).contains(v) {
        let k = choose|k: int| 0 <= k < (a + b).len() && (a + b)[k] == v;
        if k < a.len() {
            assert(a[k] == v);
        } else {
            assert(b[k - a.len()] == v);
        }
    }
    if a.contains(v) {
        let k = choose|k: int| 0 <= k < a.len() && a[k] == v;
        assert((a + b)[k] == v);
    }
    if b.contains(v) {
        let k = choose|k: int| 0 <= k < b.len() && b[k] == v;
        assert((a + b)[a.len() + k] == v);
    }
}

/// Alias of `dependents` used when reading one row of the matrix.
pub open spec fn row_of(acc: Seq<SystemAccess>, i: int) -> Set<nat> {
    dependents(acc, i)
}

proof fn lemma_dependents_finite(acc: Seq<SystemAccess>, i: int)
    ensures
        dependents(acc, i).finite(),
{
    let r = Set::<nat>::range(0nat, acc.len());
    vstd::set_lib::range_set_properties::<nat>(0nat, acc.len());
    assert(dependents(acc, i).subset_of(r));
    vstd::set_lib::lemma_len_subset(dependents(acc, i), r);
}

/// Row `i` of the matrix holds exactly the dependents of system `i`.
pub open spec fn matrix_ok(acc: Seq<SystemAccess>, m: Seq<BitSet>) -> bool {
    &&& m.len() == acc.len()
    &&& forall|i: int| 0 <= i < m.len() ==> (#[trigger] m[i]).wf() && m[i]@ == dependents(acc, i)
}


/// The systems of `s` at level `d`, in the order of `s`.
pub open spec fn at_level(acc: Seq<SystemAccess>, s: Seq<usize>, d: int) -> Seq<usize>
    decreases s.len(),
{
    if s.len() == 0 {
        Seq::empty()
    } else {
        let r = at_level(acc, s.drop_last(), d);
        if level(acc, s.last() as nat) == d {
            r.push(s.last())
        } else {
            r
        }
    }
}

/// The dependents `v < m` of system `u` left with no pending predecessor once
/// the systems of `done` have run, in increasing order.
pub open spec fn released_below(acc: Seq<SystemAccess>, u: int, done: Seq<usize>, m: int) -> Seq<usize>
    decreases m,
{
    if m <= 0 {
        Seq::empty()
    } else {
        let r = released_below(acc, u, done, m - 1);
        if depends(acc, u, m - 1) && pending_preds(acc, m - 1, done, acc.len() as int) == 0 {
            r.push((m - 1) as usize)
        } else {
            r
        }
    }
}

/// The systems `v < m` that depend on no system, in increasing order.
pub open spec fn sources_below(acc: Seq<SystemAccess>, m: int) -> Seq<usize>
    decreases m,
{
    if m <= 0 {
        Seq::empty()
    } else {
        let r = sources_below(acc, m - 1);
        if pending_preds(acc, m - 1, Seq::empty(), acc.len() as int) == 0 {
            r.push((m - 1) as usize)
        } else {
            r
        }
    }
}

/// Kahn's algorithm after `i` steps, as (systems taken so far, queue): the
/// queue starts with the systems that depend on nothing, in index order;
/// each step takes the queue's first system and appends, in index order, its
/// dependents that no longer wait for any system.
pub open spec fn kahn_state(acc: Seq<SystemAccess>, i: nat) -> (Seq<usize>, Seq<usize>)
    decreases i,
{
    if i == 0 {
        (Seq::empty(), sources_below(acc, acc.len() as int))
    } else {
        let prev = kahn_state(acc, (i - 1) as nat);
        if prev.1.len() == 0 {
            prev
        } else {
            let u = prev.1[0];
            let done = prev.0.push(u);
            (done, prev.1.drop_first() + released_below(acc, u as int, done, acc.len() as int))
        }
    }
}

/// The order in which Kahn's algorithm takes the systems.
pub open spec fn kahn_order(acc: Seq<SystemAccess>) -> Seq<usize> {
    kahn_state(acc, acc.len()).0
}

/// No dependent of `u` lies in `a..b`, so the released list does not grow there.
/// Once the queue is empty, further steps change nothing.
proof fn lemma_kahn_fixed(acc: Seq<SystemAccess>, i: nat, j: nat)
    requires
        i <= j,
        kahn_state(acc, i).1.len() == 0,
    ensures
        kahn_state(acc, j) == kahn_state(acc, i),
    decreases j,
{
    if i < j {
        lemma_kahn_fixed(acc, i, (j - 1) as nat);
    }
}

proof fn lemma_released_gap(acc: Seq<SystemAccess>, u: int, done: Seq<usize>, a: int, b: int)
    requires
        0 <= a <= b,
        forall|v: int| a <= v < b ==> !depends(acc, u, v),
    ensures
        released_below(acc, u, done, b) == released_below(acc, u, done, a),
    decreases b - a,
{
    if a < b {
        lemma_released_gap(acc, u, done, a, b - 1);
    }
}

/// Stage `k` holds, without repetition, exactly the systems at level `k`; no
/// stage is empty and every system has a stage.
pub open spec fn stages_match_levels(acc: Seq<SystemAccess>, stages: Seq<ExecutionStage>) -> bool {
    &&& forall|k: int|
        0 <= k < stages.len() ==> {
            &&& (#[trigger] stages[k]).depth == k
            &&& stages[k].system_indices@.no_duplicates()
            &&& forall|x: usize|
                #[trigger] stages[k].system_indices@.contains(x) <==> (x < acc.len() && level(
                    acc,
                    x as nat,
                ) == k)
        }
    &&& forall|k: int| 0 <= k < stages.len() ==> (#[trigger] stages[k]).system_indices@.len() > 0
    &&& forall|v: nat| v < acc.len() ==> #[trigger] level(acc, v) < stages.len()
}

/// Some stage holds system `x`.
pub open spec fn in_some_stage(stages: Seq<ExecutionStage>, x: usize) -> bool {
    exists|s: int| 0 <= s < stages.len() && #[trigger] stages[s].system_indices@.contains(x)
}

/// `new` keeps every stage of `old` with its depth and its systems, in order,
/// as the start of the same stage, and may add systems and stages after them.
pub open spec fn stages_grown(old: Seq<ExecutionStage>, new: Seq<ExecutionStage>) -> bool {
    &&& old.len() <= new.len()
    &&& forall|j: int| 0 <= j < old.len() ==> {
        &&& (#[trigger] new[j]).depth == old[j].depth
        &&& old[j].system_indices@.len() <= new[j].system_indices@.len()
        &&& new[j].system_indices@.subrange(0, old[j].system_indices@.len() as int) == old[j].system_indices@
    }
}

/// `x` is still to be placed: it is at position `from` or later of
/// `unassigned`, or it is in `next`.
pub open spec fn awaiting(unassigned: Seq<usize>, from: int, next: Seq<usize>, x: usize) -> bool {
    (exists|j: int| from <= j < unassigned.len() && unassigned[j] == x) || next.contains(x)
}

proof fn lemma_grown_keeps(old: Seq<ExecutionStage>, new: Seq<ExecutionStage>, x: usize)
    requires
        stages_grown(old, new),
        in_some_stage(old, x),
    ensures
        in_some_stage(new, x),
{
    let s = choose|s: int| 0 <= s < old.len() && #[trigger] old[s].system_indices@.contains(x);
    let i = choose|i: int| 0 <= i < old[s].system_indices@.len() && old[s].system_indices@[i] == x;
    assert(new[s].system_indices@.subrange(0, old[s].system_indices@.len() as int)[i] == x);
    assert(new[s].system_indices@[i] == x);
    assert(new[s].system_indices@.contains(x));
}

proof fn lemma_grown_trans(a: Seq<ExecutionStage>, b: Seq<ExecutionStage>, c: Seq<ExecutionStage>)
    requires
        stages_grown(a, b),
        stages_grown(b, c),
    ensures
        stages_grown(a, c),
{
    assert forall|j: int| 0 <= j < a.len() implies {
        &&& (#[trigger] c[j]).depth == a[j].depth
        &&& a[j].system_indices@.len() <= c[j].system_indices@.len()
        &&& c[j].system_indices@.subrange(0, a[j].system_indices@.len() as int) == a[j].system_indices@
    } by {
        let la = a[j].system_indices@.len() as int;
        let lb = b[j].system_indices@.len() as int;
        assert(b[j].depth == a[j].depth);
        assert(c[j].system_indices@.subrange(0, la) =~= c[j].system_indices@.subrange(0, lb).subrange(0, la));
        assert(b[j].system_indices@.subrange(0, la) == a[j].system_indices@);
    }
}

proof fn lemma_grown_refl(a: Seq<ExecutionStage>)
    ensures
        stages_grown(a, a),
{
    assert forall|j: int| 0 <= j < a.len() implies {
        &&& (#[trigger] a[j]).depth == a[j].depth
        &&& a[j].system_indices@.len() <= a[j].system_indices@.len()
        &&& a[j].system_indices@.subrange(0, a[j].system_indices@.len() as int) == a[j].system_indices@
    } by {
        assert(a[j].system_indices@.subrange(0, a[j].system_indices@.len() as int) =~= a[j].system_indices@);
    }
}

/// `i` is a system that `c` depends on whose level is one below `c`'s: a
/// step back along a longest chain ending at `c`.
pub open spec fn deepest_step(acc: Seq<SystemAccess>, i: int, c: int) -> bool {
    depends(acc, i, c) && level(acc, i as nat) + 1 == level(acc, c as nat)
}

/// Stage `st` holds a system that conflicts with `x`.
pub open spec fn conflicts_in(acc: Seq<SystemAccess>, st: ExecutionStage, x: usize) -> bool {
    exists|p: int| 0 <= p < st.system_indices@.len() && accesses_conflict(acc[x as int], acc[#[trigger] st.system_indices@[p] as int])
}

/// Position `p` of stage `k` was not there in `old`.
pub open spec fn added_at(old: Seq<ExecutionStage>, k: int, p: int) -> bool {
    k >= old.len() || p >= old[k].system_indices@.len()
}

/// The system at position `p` of stage `k` was placed first-fit: it comes
/// from `sorted`; in a stage that existed it sits at or after its depth;
/// every earlier stage at or after its depth holds a system it conflicts
/// with; it conflicts with no other system of its stage.
pub open spec fn placement_ok(
    acc: Seq<SystemAccess>,
    depths: Seq<usize>,
    sorted: Seq<usize>,
    old: Seq<ExecutionStage>,
    stages: Seq<ExecutionStage>,
    k: int,
    p: int,
) -> bool {
    let x = stages[k].system_indices@[p];
    &&& sorted.contains(x)
    &&& k < old.len() ==> stages[k].depth >= depths[x as int]
    &&& forall|k2: int| 0 <= k2 < k && stages[k2].depth >= depths[x as int] ==> #[trigger] conflicts_in(acc, stages[k2], x)
    &&& forall|q: int|
        0 <= q < stages[k].system_indices@.len() && q != p ==> !accesses_conflict(
            acc[x as int],
            acc[#[trigger] stages[k].system_indices@[q] as int],
        )
}

/// Every system placed after `old` was placed first-fit, and each stage
/// added after `old` goes one deeper than the stage before it.
pub open spec fn placed_first_fit(
    acc: Seq<SystemAccess>,
    depths: Seq<usize>,
    sorted: Seq<usize>,
    old: Seq<ExecutionStage>,
    stages: Seq<ExecutionStage>,
) -> bool {
    &&& forall|k: int, p: int|
        0 <= k < stages.len() && 0 <= p < stages[k].system_indices@.len() && added_at(old, k, p) ==> #[trigger] placement_ok(
            acc,
            depths,
            sorted,
            old,
            stages,
            k,
            p,
        )
    &&& forall|k: int|
        old.len() <= k < stages.len() ==> (#[trigger] stages[k]).depth == if k == 0 {
            0
        } else {
            stages[k - 1].depth + 1
        }
}

proof fn lemma_grown_conflicts(acc: Seq<SystemAccess>, a: Seq<ExecutionStage>, b: Seq<ExecutionStage>, t: int, y: usize)
    requires
        stages_grown(a, b),
        0 <= t < a.len(),
        conflicts_in(acc, a[t], y),
    ensures
        conflicts_in(acc, b[t], y),
{
    let p = choose|p: int| 0 <= p < a[t].system_indices@.len() && accesses_conflict(acc[y as int], acc[#[trigger] a[t].system_indices@[p] as int]);
    assert(b[t].system_indices@.subrange(0, a[t].system_indices@.len() as int)[p] == b[t].system_indices@[p]);
    assert(b[t].system_indices@[p] == a[t].system_indices@[p]);
}

proof fn lemma_first_fit_push(
    acc: Seq<SystemAccess>,
    depths: Seq<usize>,
    sorted: Seq<usize>,
    old: Seq<ExecutionStage>,
    s0: Seq<ExecutionStage>,
    s1: Seq<ExecutionStage>,
    t: int,
    x: usize,
)
    requires
        placed_first_fit(acc, depths, sorted, old, s0),
        stages_grown(old, s0),
        0 <= t < s0.len(),
        s1.len() == s0.len(),
        forall|j: int| 0 <= j < s0.len() && j != t ==> s1[j] == s0[j],
        s1[t].depth == s0[t].depth,
        s1[t].system_indices@ == s0[t].system_indices@.push(x),
        sorted.contains(x),
        s0[t].depth >= depths[x as int],
        forall|t2: int| 0 <= t2 < t && s0[t2].depth >= depths[x as int] ==> #[trigger] conflicts_in(acc, s0[t2], x),
        forall|q: int| 0 <= q < s0[t].system_indices@.len() ==> !accesses_conflict(acc[x as int], acc[#[trigger] s0[t].system_indices@[q] as int]),
    ensures
        placed_first_fit(acc, depths, sorted, old, s1),
{
    let n = s0[t].system_indices@.len() as int;
    lemma_grown_refl(s0);
    assert(stages_grown(s0, s1)) by {
        assert forall|j: int| 0 <= j < s0.len() implies {
            &&& (#[trigger] s1[j]).depth == s0[j].depth
            &&& s0[j].system_indices@.len() <= s1[j].system_indices@.len()
            &&& s1[j].system_indices@.subrange(0, s0[j].system_indices@.len() as int) == s0[j].system_indices@
        } by {
            if j == t {
                assert(s1[j].system_indices@.subrange(0, n) =~= s0[j].system_indices@);
            } else {
                assert(s1[j] == s0[j]);
                assert(s0[j].system_indices@.subrange(0, s0[j].system_indices@.len() as int) =~= s0[j].system_indices@);
            }
        }
    }
    assert forall|k: int, p: int|
        0 <= k < s1.len() && 0 <= p < s1[k].system_indices@.len() && added_at(old, k, p) implies #[trigger] placement_ok(
        acc,
        depths,
        sorted,
        old,
        s1,
        k,
        p,
    ) by {
        if k == t && p == n {
            assert(s1[k].system_indices@[p] == x);
            assert forall|k2: int| 0 <= k2 < k && s1[k2].depth >= depths[x as int] implies #[trigger] conflicts_in(acc, s1[k2], x) by {
                assert(s1[k2] == s0[k2]);
            }
            assert forall|q: int| 0 <= q < s1[k].system_indices@.len() && q != p implies !accesses_conflict(
                acc[x as int],
                acc[#[trigger] s1[k].system_indices@[q] as int],
            ) by {
                assert(s1[k].system_indices@[q] == s0[t].system_indices@[q]);
            }
        } else {
            let y = s1[k].system_indices@[p];
            assert(p < s0[k].system_indices@.len());
            assert(y == s0[k].system_indices@[p]);
            assert(added_at(old, k, p));
            assert(placement_ok(acc, depths, sorted, old, s0, k, p));
            assert forall|k2: int| 0 <= k2 < k && s1[k2].depth >= depths[y as int] implies #[trigger] conflicts_in(acc, s1[k2], y) by {
                assert(s0[k2].depth == s1[k2].depth);
                assert(conflicts_in(acc, s0[k2], y));
                lemma_grown_conflicts(acc, s0, s1, k2, y);
            }
            assert forall|q: int| 0 <= q < s1[k].system_indices@.len() && q != p implies !accesses_conflict(
                acc[y as int],
                acc[#[trigger] s1[k].system_indices@[q] as int],
            ) by {
                if k == t && q == n {
                    assert(s1[k].system_indices@[q] == x);
                    assert(!accesses_conflict(acc[x as int], acc[s0[t].system_indices@[p] as int]));
                    lemma_conflict_symmetric(acc[x as int], acc[y as int]);
                } else {
                    assert(s1[k].system_indices@[q] == s0[k].system_indices@[q]);
                }
            }
        }
    }
    assert forall|k: int| old.len() <= k < s1.len() implies (#[trigger] s1[k]).depth == if k == 0 {
        0
    } else {
        s1[k - 1].depth + 1
    } by {
        assert(s0[k].depth == s1[k].depth);
        if k > 0 {
            assert(s0[k - 1].depth == s1[k - 1].depth);
        }
    }
}

proof fn lemma_first_fit_new_stage(
    acc: Seq<SystemAccess>,
    depths: Seq<usize>,
    sorted: Seq<usize>,
    old: Seq<ExecutionStage>,
    s0: Seq<ExecutionStage>,
    s1: Seq<ExecutionStage>,
    x: usize,
)
    requires
        placed_first_fit(acc, depths, sorted, old, s0),
        stages_grown(old, s0),
        s1.len() == s0.len() + 1,
        forall|j: int| 0 <= j < s0.len() ==> s1[j] == s0[j],
        s1[s0.len() as int].system_indices@ == seq![x],
        s1[s0.len() as int].depth == if s0.len() == 0 { 0 } else { s0[s0.len() - 1].depth + 1 },
        sorted.contains(x),
        forall|t2: int| 0 <= t2 < s0.len() && s0[t2].depth >= depths[x as int] ==> #[trigger] conflicts_in(acc, s0[t2], x),
    ensures
        placed_first_fit(acc, depths, sorted, old, s1),
{
    let m = s0.len() as int;
    assert forall|k: int, p: int|
        0 <= k < s1.len() && 0 <= p < s1[k].system_indices@.len() && added_at(old, k, p) implies #[trigger] placement_ok(
        acc,
        depths,
        sorted,
        old,
        s1,
        k,
        p,
    ) by {
        if k == m {
            assert(p == 0);
            assert(s1[k].system_indices@[p] == x);
            assert(k >= old.len());
            assert forall|k2: int| 0 <= k2 < k && s1[k2].depth >= depths[x as int] implies #[trigger] conflicts_in(acc, s1[k2], x) by {
                assert(s1[k2] == s0[k2]);
            }
        } else {
            assert(s1[k] == s0[k]);
            assert(placement_ok(acc, depths, sorted, old, s0, k, p));
            let y = s0[k].system_indices@[p];
            assert forall|k2: int| 0 <= k2 < k && s1[k2].depth >= depths[y as int] implies #[trigger] conflicts_in(acc, s1[k2], y) by {
                assert(s1[k2] == s0[k2]);
            }
        }
    }
    assert forall|k: int| old.len() <= k < s1.len() implies (#[trigger] s1[k]).depth == if k == 0 {
        0
    } else {
        s1[k - 1].depth + 1
    } by {
        if k < m {
            assert(s1[k] == s0[k]);
            if k > 0 {
                assert(s1[k - 1] == s0[k - 1]);
            }
        } else if k > 0 {
            assert(s1[k - 1] == s0[k - 1]);
        }
    }
}

/// The first system at or after `i` that is a step back along a longest
/// chain ending at `c`, or `c` when there is none.
pub open spec fn first_dependency(acc: Seq<SystemAccess>, c: int, i: int) -> int
    decreases c - i,
{
    if i < 0 || i >= c {
        c
    } else if deepest_step(acc, i, c) {
        i
    } else {
        first_dependency(acc, c, i + 1)
    }
}

/// The longest dependency chain that ends at `c`, listed from its start: it
/// steps back each time to the first system that the current one depends on
/// and whose level is one lower.
pub open spec fn dependency_chain(acc: Seq<SystemAccess>, c: int) -> Seq<usize>
    decreases c,
{
    if c < 0 {
        Seq::empty()
    } else {
        let p = first_dependency(acc, c, 0);
        if 0 <= p < c {
            dependency_chain(acc, p).push(c as usize)
        } else {
            seq![c as usize]
        }
    }
}

/// The system the critical path ends at: the first system of the last stage
/// when there is more than one stage, system 0 otherwise.
pub open spec fn chain_end(stages: Seq<ExecutionStage>) -> int {
    if stages.len() > 1 && stages.last().system_indices.len() > 0 {
        stages.last().system_indices[0] as int
    } else {
        0
    }
}

/// The critical path that `DependencyGraph` reports for these stages.
pub open spec fn critical_path_of(acc: Seq<SystemAccess>, stages: Seq<ExecutionStage>) -> Seq<
    usize,
> {
    if stages.len() == 0 {
        Seq::empty()
    } else {
        dependency_chain(acc, chain_end(stages))
    }
}

proof fn lemma_first_dependency(acc: Seq<SystemAccess>, c: int, i: int)
    requires
        0 <= i <= c,
    ensures
        i <= first_dependency(acc, c, i) <= c,
        first_dependency(acc, c, i) < c ==> deepest_step(acc, first_dependency(acc, c, i), c),
        forall|u: int| i <= u < first_dependency(acc, c, i) ==> !deepest_step(acc, u, c),
    decreases c - i,
{
    if i < c && !deepest_step(acc, i, c) {
        lemma_first_dependency(acc, c, i + 1);
    }
}

proof fn lemma_chain_last(acc: Seq<SystemAccess>, c: int)
    requires
        0 <= c <= usize::MAX,
    ensures
        dependency_chain(acc, c).len() > 0,
        dependency_chain(acc, c).last() == c as usize,
{
    lemma_first_dependency(acc, c, 0);
}

/// Every system belongs to exactly one stage: the one of its level.
pub proof fn lemma_stages_partition(acc: Seq<SystemAccess>, stages: Seq<ExecutionStage>, i: usize)
    requires
        stages_match_levels(acc, stages),
        i < acc.len(),
    ensures
        level(acc, i as nat) < stages.len(),
        stages[level(acc, i as nat) as int].system_indices@.contains(i),
        forall|k: int|
            0 <= k < stages.len() && k != level(acc, i as nat) ==> !(
            #[trigger] stages[k]).system_indices@.contains(i),
{
    let l = level(acc, i as nat) as int;
    assert(stages[l].system_indices@.contains(i));
}

/// Systems that share a stage never conflict, so a stage can run in parallel.
pub proof fn lemma_stage_conflict_free(
    acc: Seq<SystemAccess>,
    stages: Seq<ExecutionStage>,
    k: int,
    x: usize,
    y: usize,
)
    requires
        stages_match_levels(acc, stages),
        0 <= k < stages.len(),
        stages[k].system_indices@.contains(x),
        stages[k].system_indices@.contains(y),
        x != y,
    ensures
        !accesses_conflict(acc[x as int], acc[y as int]),
{
    assert(stages[k].depth == k);
    lemma_same_level_no_conflict(acc, x as nat, y as nat);
}

/// A system runs in a later stage than every earlier system it conflicts with.
pub proof fn lemma_stages_respect_dependencies(
    acc: Seq<SystemAccess>,
    stages: Seq<ExecutionStage>,
    i: usize,
    j: usize,
    a: int,
    b: int,
)
    requires
        stages_match_levels(acc, stages),
        depends(acc, i as int, j as int),
        0 <= a < stages.len(),
        0 <= b < stages.len(),
        stages[a].system_indices@.contains(i),
        stages[b].system_indices@.contains(j),
    ensures
        a < b,
{
    assert(stages[a].depth == a);
    assert(stages[b].depth == b);
    lemma_level_increases(acc, i as nat, j as nat);
}

proof fn lemma_chain_links(acc: Seq<SystemAccess>, c: int)
    requires
        0 <= c <= usize::MAX,
    ensures
        forall|k: int|
            0 <= k < dependency_chain(acc, c).len() - 1 ==> depends(
                acc,
                #[trigger] dependency_chain(acc, c)[k] as int,
                dependency_chain(acc, c)[k + 1] as int,
            ),
        forall|k: int|
            0 <= k < dependency_chain(acc, c).len() ==> #[trigger] dependency_chain(acc, c)[k] <= c,
    decreases c,
{
    lemma_first_dependency(acc, c, 0);
    let p = first_dependency(acc, c, 0);
    if 0 <= p < c {
        lemma_chain_links(acc, p);
        lemma_chain_last(acc, p);
        let ch = dependency_chain(acc, p);
        assert(dependency_chain(acc, c) == ch.push(c as usize));
        assert forall|k: int| 0 <= k < ch.push(c as usize).len() - 1 implies depends(
            acc,
            #[trigger] ch.push(c as usize)[k] as int,
            ch.push(c as usize)[k + 1] as int,
        ) by {
            if k == ch.len() - 1 {
                assert(ch[k] == p as usize);
            }
        }
    }
}

proof fn lemma_chain_len(acc: Seq<SystemAccess>, c: int)
    requires
        0 <= c <= usize::MAX,
    ensures
        dependency_chain(acc, c).len() == level(acc, c as nat) + 1,
    decreases c,
{
    lemma_first_dependency(acc, c, 0);
    let p = first_dependency(acc, c, 0);
    if 0 <= p < c {
        lemma_chain_len(acc, p);
    } else if level(acc, c as nat) > 0 {
        lemma_pred_level_witness(acc, c as nat, c as nat);
        let i = choose|i: nat|
            i < c && depends(acc, i as int, c as int) && level(acc, i) + 1 == pred_level(acc, c as nat, c as nat);
        assert(deepest_step(acc, i as int, c));
    }
}

/// A run of systems in which each depends on the one before.
pub open spec fn is_chain(acc: Seq<SystemAccess>, ch: Seq<usize>) -> bool {
    &&& ch.len() > 0
    &&& forall|k: int| 0 <= k < ch.len() ==> #[trigger] ch[k] < acc.len()
    &&& forall|k: int| 0 <= k < ch.len() - 1 ==> depends(acc, #[trigger] ch[k] as int, ch[k + 1] as int)
}

proof fn lemma_chain_within_level(acc: Seq<SystemAccess>, ch: Seq<usize>)
    requires
        is_chain(acc, ch),
    ensures
        ch.len() <= level(acc, ch.last() as nat) + 1,
    decreases ch.len(),
{
    if ch.len() > 1 {
        let p = ch.drop_last();
        assert forall|k: int| 0 <= k < p.len() - 1 implies depends(acc, #[trigger] p[k] as int, p[k + 1] as int) by {
            assert(p[k] == ch[k] && p[k + 1] == ch[k + 1]);
            assert(depends(acc, ch[k] as int, ch[k + 1] as int));
        }
        assert forall|k: int| 0 <= k < p.len() implies #[trigger] p[k] < acc.len() by {
            assert(p[k] == ch[k]);
        }
        lemma_chain_within_level(acc, p);
        let n = ch.len() - 1;
        assert(depends(acc, ch[n - 1] as int, ch[n] as int));
        lemma_level_increases(acc, ch[n - 1] as nat, ch[n] as nat);
    }
}

/// The critical path is a longest dependency chain: it is a chain, one
/// system per stage, and no chain of systems holds more systems than there
/// are stages.
pub proof fn lemma_critical_path_is_longest(acc: Seq<SystemAccess>, stages: Seq<ExecutionStage>, ch: Seq<usize>)
    requires
        stages_match_levels(acc, stages),
        is_chain(acc, ch),
    ensures
        critical_path_of(acc, stages).len() == stages.len(),
        ch.len() <= critical_path_of(acc, stages).len(),
{
    lemma_chain_within_level(acc, ch);
    assert(ch[ch.len() - 1] < acc.len());
    assert(level(acc, ch.last() as nat) < stages.len());
    let e = chain_end(stages);
    let s0 = stages[0].system_indices@;
    assert(s0.contains(s0[0]));
    if stages.len() > 1 && stages.last().system_indices.len() > 0 {
        let last = stages[stages.len() - 1];
        assert(last.system_indices@.contains(last.system_indices@[0]));
        assert(last.depth == stages.len() - 1);
    } else {
        assert(stages.len() == 1) by {
            let last = stages[stages.len() - 1];
            assert(last.system_indices@.len() > 0);
        }
        lemma_level_bound(acc, 0);
    }
    lemma_chain_len(acc, e);
}

/// Each step of the critical path goes from a system to one that depends on it.
pub proof fn lemma_critical_path_is_chain(acc: Seq<SystemAccess>, stages: Seq<ExecutionStage>)
    requires
        stages_match_levels(acc, stages),
    ensures
        forall|k: int|
            0 <= k < critical_path_of(acc, stages).len() - 1 ==> depends(
                acc,
                #[trigger] critical_path_of(acc, stages)[k] as int,
                critical_path_of(acc, stages)[k + 1] as int,
            ),
{
    if stages.len() > 0 {
        let e = chain_end(stages);
        if stages.len() > 1 && stages.last().system_indices.len() > 0 {
            let last = stages[stages.len() - 1];
            assert(last.system_indices@.contains(last.system_indices@[0]));
        }
        lemma_chain_links(acc, e);
    }
}

/// Represents execution stages where all systems in a stage can run in parallel
#[derive(Clone, Debug)]
pub struct ExecutionStage {
    pub system_indices: Vec<usize>,
    pub depth: usize,
}

/// Builds execution stages from system dependencies using topological sort
pub struct DependencyGraph {
    stages: Vec<ExecutionStage>,
    critical_path: Vec<usize>,
    dependency_matrix: Vec<BitSet>,
}

impl DependencyGraph {
    /// The stages of the schedule.
    pub closed spec fn stage_seq(&self) -> Seq<ExecutionStage> {
        self.stages@
    }

    /// The critical path of the schedule.
    pub closed spec fn path(&self) -> Seq<usize> {
        self.critical_path@
    }

    /// Create graph from system accesses with optimal scheduling. Stage `k`
    /// holds the systems at level `k`, in the order Kahn's algorithm takes
    /// them.
    ///
    /// The bound on the number of systems is the most a `Vec` of accesses
    /// can hold.
    pub fn new(system_accesses: Vec<SystemAccess>) -> (g: Self)
        requires
            system_accesses.len() <= usize::MAX / 96,
        ensures
            stages_match_levels(system_accesses@, g.stage_seq()),
            forall|k: int| 0 <= k < g.stage_seq().len() ==> (#[trigger] g.stage_seq()[k]).system_indices@ == at_level(
                system_accesses@,
                kahn_order(system_accesses@),
                k,
            ),
            g.path() == critical_path_of(system_accesses@, g.stage_seq()),
    {
        let dependency_matrix = Self::build_dependency_matrix(system_accesses.as_slice());
        let stages = Self::build_stages_topological(
            system_accesses.as_slice(),
            dependency_matrix.as_slice(),
        );
        let critical_path = Self::find_critical_path(
            stages.as_slice(),
            dependency_matrix.as_slice(),
            Ghost(system_accesses@),
        );
        DependencyGraph { stages, critical_path, dependency_matrix }
    }

    /// Build bitset matrix representing dependencies between systems
    fn build_dependency_matrix(accesses: &[SystemAccess]) -> (m: Vec<BitSet>)
        requires
            accesses@.len() <= usize::MAX / 96,
        ensures
            matrix_ok(accesses@, m@),
    {
        let count = accesses.len();
        let mut matrix: Vec<BitSet> = Vec::new();
        let mut r: usize = 0;
        while r < count
            invariant
                count == accesses@.len(),
                count <= usize::MAX / 96,
                r <= count,
                matrix@.len() == r,
                forall|k: int| 0 <= k < r ==> (#[trigger] matrix@[k]).wf() && matrix@[k]@ == Set::<
                    nat,
                >::empty(),
            decreases count - r,
        {
            matrix.push(BitSet::with_capacity(count));
            r = r + 1;
        }
        let mut i: usize = 0;
        while i < count
            invariant
                count == accesses@.len(),
                count <= usize::MAX / 96,
                i <= count,
                matrix@.len() == count,
                forall|k: int| 0 <= k < count ==> (#[trigger] matrix@[k]).wf(),
                forall|k: int| 0 <= k < i ==> (#[trigger] matrix@[k])@ == dependents(accesses@, k),
                forall|k: int| i <= k < count ==> (#[trigger] matrix@[k])@ == Set::<nat>::empty(),
            decreases count - i,
        {
            let mut j: usize = i + 1;
            while j < count
                invariant
                    count == accesses@.len(),
                    count <= usize::MAX / 96,
                    i < count,
                    i + 1 <= j <= count,
                    matrix@.len() == count,
                    forall|k: int| 0 <= k < count ==> (#[trigger] matrix@[k]).wf(),
                    forall|k: int|
                        0 <= k < i ==> (#[trigger] matrix@[k])@ == dependents(accesses@, k),
                    forall|k: int|
                        i < k < count ==> (#[trigger] matrix@[k])@ == Set::<nat>::empty(),
                    matrix@[i as int]@ == Set::new(
                        |x: nat| x < j && depends(accesses@, i as int, x as int),
                    ),
                decreases count - j,
            {
                if accesses[i].conflicts_with(&accesses[j]) {
                    let mut row = matrix.remove(i);
                    row.set(j);
                    matrix.insert(i, row);
                }
                j = j + 1;
                assert(matrix@[i as int]@ =~= Set::new(
                    |x: nat| x < j && depends(accesses@, i as int, x as int),
                ));
            }
            assert(matrix@[i as int]@ =~= dependents(accesses@, i as int));
            i = i + 1;
        }
        matrix
    }

    /// In-degree of every system: how many systems it depends on.
    fn in_degrees(accesses: &[SystemAccess], dependency_matrix: &[BitSet]) -> (deg: Vec<usize>)
        requires
            accesses@.len() <= usize::MAX / 96,
            matrix_ok(accesses@, dependency_matrix@),
        ensures
            deg@.len() == accesses@.len(),
            forall|v: int|
                0 <= v < deg@.len() ==> #[trigger] deg@[v] == pending_preds(
                    accesses@,
                    v,
                    Seq::empty(),
                    accesses@.len() as int,
                ),
    {
        let count = accesses.len();
        let ghost acc = accesses@;
        let mut in_degree: Vec<usize> = Vec::new();
        while in_degree.len() < count
            invariant
                in_degree@.len() <= count,
                forall|v: int| 0 <= v < in_degree@.len() ==> #[trigger] in_degree@[v] == 0,
            decreases count - in_degree.len(),
        {
            in_degree.push(0);
        }
        let mut r: usize = 0;
        while r < count
            invariant
                count == acc.len(),
                acc == accesses@,
                count <= usize::MAX / 96,
                matrix_ok(acc, dependency_matrix@),
                r <= count,
                in_degree@.len() == count,
                forall|v: int|
                    0 <= v < count ==> #[trigger] in_degree@[v] == pending_preds(
                        acc,
                        v,
                        Seq::empty(),
                        r as int,
                    ),
            decreases count - r,
        {
            let ghost row = dependency_matrix@[r as int]@;
            proof {
                lemma_dependents_finite(acc, r as int);
            }
            let mut it = dependency_matrix[r].ones();
            loop
                invariant
                    count == acc.len(),
                    count <= usize::MAX / 96,
                    r < count,
                    in_degree@.len() == count,
                    row == dependents(acc, r as int),
                    row.finite(),
                    it.wf(),
                    it.remaining().subset_of(row),
                    forall|v: int|
                        0 <= v < count ==> #[trigger] in_degree@[v] == pending_preds(
                            acc,
                            v,
                            Seq::empty(),
                            r as int,
                        ) + (if row.contains(v as nat) && !it.remaining().contains(v as nat) {
                            1int
                        } else {
                            0int
                        }),
                ensures
                    in_degree@.len() == count,
                    forall|v: int|
                        0 <= v < count ==> #[trigger] in_degree@[v] == pending_preds(
                            acc,
                            v,
                            Seq::empty(),
                            r + 1,
                        ),
                decreases it.remaining().len(),
            {
                proof {
                    vstd::set_lib::lemma_len_subset(it.remaining(), row);
                }
                match it.next() {
                    None => {
                        break ;
                    },
                    Some(nb) => {
                        proof {
                            lemma_pending_bound(acc, nb as int, Seq::empty(), r as int);
                        }
                        let d = in_degree[nb];
                        in_degree.set(nb, d + 1);
                    },
                }
            }
            r = r + 1;
        }
        in_degree
    }

    /// Kahn's algorithm: the systems in topological order, and the level of each.
    fn kahn_order(
        accesses: &[SystemAccess],
        dependency_matrix: &[BitSet],
        in_degree: Vec<usize>,
    ) -> (res: (Vec<usize>, Vec<usize>))
        requires
            accesses@.len() <= usize::MAX / 96,
            matrix_ok(accesses@, dependency_matrix@),
            in_degree@.len() == accesses@.len(),
            forall|v: int|
                0 <= v < in_degree@.len() ==> #[trigger] in_degree@[v] == pending_preds(
                    accesses@,
                    v,
                    Seq::empty(),
                    accesses@.len() as int,
                ),
        ensures
            res.0@.no_duplicates(),
            forall|k: int| 0 <= k < res.0@.len() ==> #[trigger] res.0@[k] < accesses@.len(),
            forall|v: usize| v < accesses@.len() ==> #[trigger] res.0@.contains(v),
            res.1@.len() == accesses@.len(),
            forall|v: int| 0 <= v < res.1@.len() ==> #[trigger] res.1@[v] == level(accesses@, v as nat),
            res.0@ == kahn_order(accesses@),
    {
        let count = accesses.len();
        let ghost acc = accesses@;
        let ghost n = count as int;
        let mut in_degree = in_degree;
        let mut depths: Vec<usize> = Vec::new();
        while depths.len() < count
            invariant
                depths@.len() <= count,
                forall|v: int| 0 <= v < depths@.len() ==> #[trigger] depths@[v] == 0,
            decreases count - depths.len(),
        {
            depths.push(0);
        }
        proof {
            assert forall|v: int| 0 <= v < count implies #[trigger] depths@[v] == done_level(
                acc,
                v,
                Seq::<usize>::empty(),
                n,
            ) by {
                lemma_none_done(acc, v, n);
            }
        }
        let mut queue: VecDeque<usize> = VecDeque::new();
        let mut idx: usize = 0;
        while idx < count
            invariant
                count == acc.len(),
                idx <= count,
                in_degree@.len() == count,
                queue@.no_duplicates(),
                forall|k: int| 0 <= k < queue@.len() ==> #[trigger] queue@[k] < idx,
                forall|v: usize| v < idx ==> (#[trigger] queue@.contains(v) <==> in_degree@[v as int] == 0),
                acc == accesses@,
                n == count,
                queue@ == sources_below(acc, idx as int),
                forall|v: int|
                    0 <= v < in_degree@.len() ==> #[trigger] in_degree@[v] == pending_preds(acc, v, Seq::empty(), n),
            decreases count - idx,
        {
            if in_degree[idx] == 0 {
                let ghost q = queue@;
                queue.push_back(idx);
                proof {
                    assert forall|v: usize| #[trigger] queue@.contains(v) <==> (q.contains(v) || v == idx) by {
                        if queue@.contains(v) {
                            let k = choose|k: int| 0 <= k < queue@.len() && queue@[k] == v;
                            if k < q.len() {
                                assert(q[k] == v);
                            }
                        }
                        if q.contains(v) {
                            let k = choose|k: int| 0 <= k < q.len() && q[k] == v;
                            assert(queue@[k] == v);
                        }
                        if v == idx {
                            assert(queue@[q.len() as int] == v);
                        }
                    }
                }
            }
            idx = idx + 1;
        }
        let mut sorted: Vec<usize> = Vec::new();
        proof {
            lemma_distinct_bounded(queue@, count);
            assert(sorted@ + queue@ =~= queue@);
            assert(kahn_state(acc, 0) == (sorted@, queue@));
        }
        loop
            invariant
                count == acc.len(),
                n == count,
                acc == accesses@,
                count <= usize::MAX / 96,
                matrix_ok(acc, dependency_matrix@),
                in_degree@.len() == count,
                depths@.len() == count,
                (sorted@ + queue@).no_duplicates(),
                forall|k: int| 0 <= k < (sorted@ + queue@).len() ==> #[trigger] (sorted@ + queue@)[k] < count,
                sorted@.len() + queue@.len() <= count,
                forall|v: int|
                    0 <= v < count ==> #[trigger] in_degree@[v] == pending_preds(acc, v, sorted@, n),
                forall|v: usize|
                    v < count ==> ((sorted@.contains(v) || queue@.contains(v)) <==> #[trigger] in_degree@[v as int] == 0),
                forall|v: int|
                    0 <= v < count ==> #[trigger] depths@[v] == done_level(acc, v, sorted@, n),
                kahn_state(acc, sorted@.len() as nat) == (sorted@, queue@),
            ensures
                kahn_state(acc, sorted@.len() as nat) == (sorted@, queue@),
                queue@.len() == 0,
                in_degree@.len() == count,
                depths@.len() == count,
                sorted@.no_duplicates(),
                forall|k: int| 0 <= k < sorted@.len() ==> #[trigger] sorted@[k] < count,
                forall|v: int|
                    0 <= v < count ==> #[trigger] in_degree@[v] == pending_preds(acc, v, sorted@, n),
                forall|v: usize|
                    v < count ==> (sorted@.contains(v) <==> #[trigger] in_degree@[v as int] == 0),
                forall|v: int|
                    0 <= v < count ==> #[trigger] depths@[v] == done_level(acc, v, sorted@, n),
            decreases count - sorted@.len(),
        {
            let ghost q0 = queue@;
            let ghost old_sorted = sorted@;
            let popped = queue.pop_front();
            match popped {
                None => {
                    proof {
                        assert(sorted@ + queue@ =~= sorted@);
                    }
                    break ;
                },
                Some(node) => {
                    proof {
                        assert(old_sorted.push(node) + queue@ =~= old_sorted + q0);
                        assert((old_sorted + q0)[old_sorted.len() as int] == node);
                        assert(q0.contains(node));
                        assert(!old_sorted.contains(node)) by {
                            if old_sorted.contains(node) {
                                let k = choose|k: int| 0 <= k < old_sorted.len() && old_sorted[k] == node;
                                assert((old_sorted + q0)[k] == (old_sorted + q0)[old_sorted.len() as int]);
                            }
                        }
                        assert(node < count) by {
                            assert((old_sorted + q0)[old_sorted.len() as int] < count);
                        }
                        assert(in_degree@[node as int] == 0);
                        assert(in_degree@[node as int] == pending_preds(acc, node as int, old_sorted, n));
                        lemma_past_self(acc, node as int, old_sorted, n);
                        lemma_done_level_complete(acc, node as nat, old_sorted, node as nat);
                        lemma_level_bound(acc, node as nat);
                    }
                    sorted.push(node);
                    let ghost ps = sorted@;
                    proof {
                        assert forall|v: int| 0 <= v < count implies #[trigger] in_degree@[v] == pending_preds(acc, v, ps, n)
                            + (if row_of(acc, node as int).contains(v as nat) { 1int } else { 0int }) by {
                            lemma_pending_after_done(acc, v, old_sorted, node, n);
                        }
                        assert forall|v: int| 0 <= v < count implies #[trigger] depths@[v] == (if row_of(acc, node as int).contains(v as nat) {
                            done_level(acc, v, old_sorted, n)
                        } else {
                            done_level(acc, v, ps, n)
                        }) by {
                            lemma_done_level_after_done(acc, v, old_sorted, node, n);
                        }
                        lemma_pending_after_done(acc, node as int, old_sorted, node, n);
                        lemma_done_level_after_done(acc, node as int, old_sorted, node, n);
                        assert(ps + queue@ =~= old_sorted + q0);
                        assert forall|v: usize| v < count implies ((ps.contains(v) || queue@.contains(v)) <==> #[trigger] in_degree@[v as int] == 0) by {
                            lemma_concat_contains(ps, queue@, v);
                            lemma_concat_contains(old_sorted, q0, v);
                            assert(in_degree@[v as int] == 0 <==> (old_sorted.contains(v) || q0.contains(v)));
                        }
                        lemma_dependents_finite(acc, node as int);
                    }
                    let node_depth = depths[node];
                    let ghost row = dependency_matrix@[node as int]@;
                    let mut it = dependency_matrix[node].ones();
                    let ghost mut lo: int = 0;
                    proof {
                        assert(queue@ =~= q0.drop_first() + released_below(acc, node as int, ps, 0));
                    }
                    loop
                        invariant
                            0 <= lo <= n,
                            forall|x: nat| #[trigger] row.contains(x) ==> (it.remaining().contains(x) <==> x >= lo),
                            queue@ == q0.drop_first() + released_below(acc, node as int, ps, lo),
                            kahn_state(acc, old_sorted.len() as nat) == (old_sorted, q0),
                            q0.len() > 0,
                            q0[0] == node,
                            count == acc.len(),
                            n == count,
                            count <= usize::MAX / 96,
                            node < count,
                            in_degree@.len() == count,
                            depths@.len() == count,
                            row == dependents(acc, node as int),
                            row.finite(),
                            it.wf(),
                            it.remaining().subset_of(row),
                            ps == old_sorted.push(node),
                            node_depth == level(acc, node as nat),
                            level(acc, node as nat) <= node,
                            (ps + queue@).no_duplicates(),
                            forall|k: int| 0 <= k < (ps + queue@).len() ==> #[trigger] (ps + queue@)[k] < count,
                            ps.len() + queue@.len() <= count,
                            !old_sorted.contains(node),
                            forall|v: int|
                                0 <= v < count ==> #[trigger] in_degree@[v] == pending_preds(acc, v, ps, n)
                                    + (if row.contains(v as nat) && it.remaining().contains(v as nat) { 1int } else { 0int }),
                            forall|v: usize|
                                v < count ==> ((ps.contains(v) || queue@.contains(v)) <==> #[trigger] in_degree@[v as int] == 0),
                            forall|v: int|
                                0 <= v < count ==> #[trigger] depths@[v] == (if row.contains(v as nat) && it.remaining().contains(v as nat) {
                                    done_level(acc, v, old_sorted, n)
                                } else {
                                    done_level(acc, v, ps, n)
                                }),
                        ensures
                            in_degree@.len() == count,
                            depths@.len() == count,
                            (ps + queue@).no_duplicates(),
                            forall|k: int| 0 <= k < (ps + queue@).len() ==> #[trigger] (ps + queue@)[k] < count,
                            ps.len() + queue@.len() <= count,
                            forall|v: int|
                                0 <= v < count ==> #[trigger] in_degree@[v] == pending_preds(acc, v, ps, n),
                            forall|v: usize|
                                v < count ==> ((ps.contains(v) || queue@.contains(v)) <==> #[trigger] in_degree@[v as int] == 0),
                            forall|v: int|
                                0 <= v < count ==> #[trigger] depths@[v] == done_level(acc, v, ps, n),
                            queue@ == q0.drop_first() + released_below(acc, node as int, ps, n),
                        decreases it.remaining().len(),
                    {
                        proof {
                            vstd::set_lib::lemma_len_subset(it.remaining(), row);
                        }
                        let ghost r0 = it.remaining();
                        match it.next() {
                            None => {
                                proof {
                                    assert forall|v: int| lo <= v < n implies !depends(acc, node as int, v) by {
                                        if depends(acc, node as int, v) {
                                            assert(row.contains(v as nat));
                                            assert(r0.contains(v as nat));
                                        }
                                    }
                                    lemma_released_gap(acc, node as int, ps, lo, n);
                                }
                                break ;
                            },
                            Some(nb) => {
                                proof {
                                    assert(row.contains(nb as nat));
                                    assert(nb >= lo);
                                    assert forall|v: int| lo <= v < nb implies !depends(acc, node as int, v) by {
                                        if depends(acc, node as int, v) {
                                            assert(row.contains(v as nat));
                                            assert(r0.contains(v as nat));
                                        }
                                    }
                                    lemma_released_gap(acc, node as int, ps, lo, nb as int);
                                    assert(pending_preds(acc, nb as int, ps, n) + 1 == in_degree@[nb as int]);
                                    assert(depends(acc, node as int, nb as int));
                                    assert(in_degree@[nb as int] >= 1);
                                    lemma_pending_after_done(acc, nb as int, old_sorted, node, n);
                                    lemma_done_level_after_done(acc, nb as int, old_sorted, node, n);
                                }
                                let d = in_degree[nb];
                                in_degree.set(nb, d - 1);
                                let dn = depths[nb];
                                if node_depth + 1 > dn {
                                    depths.set(nb, node_depth + 1);
                                }
                                proof {
                                    assert(!ps.contains(nb) && !queue@.contains(nb));
                                }
                                if d - 1 == 0 {
                                    let ghost before = ps + queue@;
                                    let ghost q1 = queue@;
                                    proof {
                                        lemma_concat_contains(ps, queue@, nb);
                                        assert(!before.contains(nb));
                                    }
                                    queue.push_back(nb);
                                    proof {
                                        assert(ps + queue@ =~= before.push(nb));
                                        lemma_distinct_bounded(ps + queue@, count);
                                        assert forall|v: usize| v < count implies ((ps.contains(v) || queue@.contains(v)) <==> #[trigger] in_degree@[v as int] == 0) by {
                                            lemma_push_contains(q1, nb, v);
                                        }
                                        assert(queue@ =~= q0.drop_first() + released_below(acc, node as int, ps, nb + 1));
                                    }
                                }
                                proof {
                                    assert(queue@ =~= q0.drop_first() + released_below(acc, node as int, ps, nb + 1));
                                    lo = nb + 1;
                                    assert forall|x: nat| #[trigger] row.contains(x) implies (it.remaining().contains(x) <==> x >= lo) by {
                                        if x >= lo {
                                            assert(r0.contains(x));
                                        }
                                    }
                                }
                            },
                        }
                    }
                },
            }
        }
        proof {
            lemma_distinct_bounded(sorted@, count);
            lemma_kahn_fixed(acc, sorted@.len() as nat, n as nat);
            lemma_everything_done(acc, n, sorted@, in_degree@, n);
            assert forall|v: int| 0 <= v < count implies #[trigger] depths@[v] == level(acc, v as nat) by {
                assert(sorted@.contains(v as usize));
                assert(in_degree@[v] == 0);
                lemma_past_self(acc, v, sorted@, n);
                lemma_done_level_complete(acc, v as nat, sorted@, v as nat);
            }
        }
        (sorted, depths)
    }

    /// Build execution stages using topological sort and graph coloring
    fn build_stages_topological(accesses: &[SystemAccess], dependency_matrix: &[BitSet]) -> (stages:
        Vec<ExecutionStage>)
        requires
            accesses@.len() <= usize::MAX / 96,
            matrix_ok(accesses@, dependency_matrix@),
        ensures
            stages_match_levels(accesses@, stages@),
            forall|k: int| 0 <= k < stages@.len() ==> (#[trigger] stages@[k]).system_indices@ == at_level(
                accesses@,
                kahn_order(accesses@),
                k,
            ),
    {
        let count = accesses.len();
        if count == 0 {
            let stages: Vec<ExecutionStage> = Vec::new();
            return stages;
        }
        let in_degree = Self::in_degrees(accesses, dependency_matrix);
        let (sorted, depths) = Self::kahn_order(accesses, dependency_matrix, in_degree);
        let mut stages = Self::group_by_depth(accesses, &sorted, &depths);
        proof {
            lemma_distinct_bounded(sorted@, count);
            assert forall|k: int| 0 <= k < stages@.len() implies (#[trigger] stages@[k]).depth <= accesses@.len() by {
                let x = stages@[k].system_indices@[0];
                assert(stages@[k].system_indices@.contains(x));
                lemma_level_bound(accesses@, x as nat);
            }
            assert forall|k: int, x: int|
                0 <= k < stages@.len() && 0 <= x < stages@[k].system_indices@.len()
                    implies #[trigger] stages@[k].system_indices@[x] < accesses@.len() by {
                assert(stages@[k].system_indices@.contains(stages@[k].system_indices@[x]));
            }
            assert forall|k: int| 0 <= k < sorted@.len() implies in_some_stage(stages@, #[trigger] sorted@[k]) by {
                let x = sorted@[k];
                let l = level(accesses@, x as nat) as int;
                assert(stages@[l].system_indices@.contains(x));
            }
        }
        Self::optimize_stages(&mut stages, accesses, &sorted, &depths);
        stages
    }

    /// Group the systems by level, in topological order, keeping each stage
    /// free of conflicts.
    fn group_by_depth(accesses: &[SystemAccess], sorted: &Vec<usize>, depths: &Vec<usize>) -> (stages:
        Vec<ExecutionStage>)
        requires
            0 < accesses@.len() <= usize::MAX / 96,
            sorted@.no_duplicates(),
            forall|k: int| 0 <= k < sorted@.len() ==> #[trigger] sorted@[k] < accesses@.len(),
            forall|v: usize| v < accesses@.len() ==> #[trigger] sorted@.contains(v),
            depths@.len() == accesses@.len(),
            forall|v: int| 0 <= v < depths@.len() ==> #[trigger] depths@[v] == level(accesses@, v as nat),
        ensures
            stages_match_levels(accesses@, stages@),
            forall|k: int| 0 <= k < stages@.len() ==> (#[trigger] stages@[k]).system_indices@ == at_level(accesses@, sorted@, k),
    {
        let count = accesses.len();
        let ghost acc = accesses@;
        let mut max_depth: usize = depths[0];
        let mut top: usize = 0;
        let mut i: usize = 1;
        while i < count
            invariant
                count == acc.len(),
                depths@.len() == count,
                1 <= i <= count,
                top < count,
                depths@[top as int] == max_depth,
                forall|v: int| 0 <= v < i ==> #[trigger] depths@[v] <= max_depth,
            decreases count - i,
        {
            if depths[i] > max_depth {
                max_depth = depths[i];
                top = i;
            }
            i = i + 1;
        }
        proof {
            lemma_level_bound(acc, top as nat);
            assert forall|v: nat| v < count implies #[trigger] level(acc, v) <= max_depth by {
                assert(depths@[v as int] <= max_depth);
            }
        }
        let mut stages: Vec<ExecutionStage> = Vec::new();
        let mut depth: usize = 0;
        while depth <= max_depth
            invariant
                count == acc.len(),
                acc == accesses@,
                count <= usize::MAX / 96,
                max_depth < count,
                top < count,
                level(acc, top as nat) == max_depth,
                forall|v: nat| v < count ==> #[trigger] level(acc, v) <= max_depth,
                sorted@.no_duplicates(),
                forall|k: int| 0 <= k < sorted@.len() ==> #[trigger] sorted@[k] < count,
                forall|v: usize| v < count ==> #[trigger] sorted@.contains(v),
                depths@.len() == count,
                forall|v: int| 0 <= v < count ==> #[trigger] depths@[v] == level(acc, v as nat),
                depth <= max_depth + 1,
                stages@.len() == depth,
                forall|k: int| 0 <= k < stages@.len() ==> (#[trigger] stages@[k]).system_indices@ == at_level(acc, sorted@, k),
                forall|k: int|
                    0 <= k < stages@.len() ==> {
                        &&& (#[trigger] stages@[k]).depth == k
                        &&& stages@[k].system_indices@.no_duplicates()
                        &&& stages@[k].system_indices@.len() > 0
                        &&& forall|x: usize|
                            #[trigger] stages@[k].system_indices@.contains(x) <==> (x < count && level(acc, x as nat) == k)
                    },
            decreases max_depth + 1 - depth,
        {
            let mut stage_systems: Vec<usize> = Vec::new();
            let mut i: usize = 0;
            while i < sorted.len()
                invariant
                    count == acc.len(),
                    acc == accesses@,
                    sorted@.no_duplicates(),
                    forall|k: int| 0 <= k < sorted@.len() ==> #[trigger] sorted@[k] < count,
                    depths@.len() == count,
                    forall|v: int| 0 <= v < count ==> #[trigger] depths@[v] == level(acc, v as nat),
                    i <= sorted@.len(),
                    stage_systems@ == at_level(acc, sorted@.subrange(0, i as int), depth as int),
                    stage_systems@.no_duplicates(),
                    forall|k: int|
                        0 <= k < stage_systems@.len() ==> sorted@.subrange(0, i as int).contains(
                            #[trigger] stage_systems@[k],
                        ) && level(acc, stage_systems@[k] as nat) == depth && stage_systems@[k] < count,
                    forall|k: int|
                        0 <= k < i ==> level(acc, (#[trigger] sorted@[k]) as nat) == depth
                            ==> stage_systems@.contains(sorted@[k]),
                decreases sorted@.len() - i,
            {
                let sys_idx = sorted[i];
                if depths[sys_idx] == depth {
                    let mut can_add = true;
                    let mut e: usize = 0;
                    while e < stage_systems.len()
                        invariant
                            count == acc.len(),
                            acc == accesses@,
                            sys_idx < count,
                            level(acc, sys_idx as nat) == depth,
                            !sorted@.subrange(0, i as int).contains(sys_idx),
                            forall|k: int|
                                0 <= k < stage_systems@.len() ==> sorted@.subrange(0, i as int).contains(
                                    #[trigger] stage_systems@[k],
                                ) && level(acc, stage_systems@[k] as nat) == depth && stage_systems@[k] < count,
                            can_add,
                        ensures
                            can_add,
                        decreases stage_systems@.len() - e,
                    {
                        let existing_idx = stage_systems[e];
                        proof {
                            assert(existing_idx != sys_idx);
                            lemma_same_level_no_conflict(acc, sys_idx as nat, existing_idx as nat);
                        }
                        if accesses[sys_idx].conflicts_with(&accesses[existing_idx]) {
                            can_add = false;
                            break ;
                        }
                        e = e + 1;
                    }
                    if can_add {
                        let ghost before = stage_systems@;
                        stage_systems.push(sys_idx);
                        proof {
                            assert forall|x: usize| #[trigger] stage_systems@.contains(x) <==> (before.contains(x) || x == sys_idx) by {
                                lemma_push_contains(before, sys_idx, x);
                            }
                            assert(!before.contains(sys_idx));
                        }
                    }
                }
                proof {
                    assert forall|k: int| 0 <= k < stage_systems@.len() implies sorted@.subrange(0, i + 1).contains(
                        #[trigger] stage_systems@[k],
                    ) by {
                        let x = stage_systems@[k];
                        if x != sys_idx {
                            let j = choose|j: int| 0 <= j < i && sorted@.subrange(0, i as int)[j] == x;
                            assert(sorted@.subrange(0, i + 1)[j] == x);
                        } else {
                            assert(sorted@.subrange(0, i + 1)[i as int] == x);
                        }
                    }
                }
                proof {
                    assert(sorted@.subrange(0, i + 1).drop_last() =~= sorted@.subrange(0, i as int));
                }
                i = i + 1;
            }
            proof {
                assert(sorted@.subrange(0, sorted@.len() as int) =~= sorted@);
                lemma_levels_dense(acc, top as nat, depth as nat);
                let u = choose|u: nat| u <= top && level(acc, u) == depth;
                assert(sorted@.contains(u as usize));
                let k = choose|k: int| 0 <= k < sorted@.len() && sorted@[k] == u as usize;
                assert(stage_systems@.contains(u as usize));
                assert forall|x: usize|
                    stage_systems@.contains(x) <==> (x < count && level(acc, x as nat) == depth) by {
                    if x < count && level(acc, x as nat) == depth {
                        assert(sorted@.contains(x));
                        let k = choose|k: int| 0 <= k < sorted@.len() && sorted@[k] == x;
                        assert(level(acc, sorted@[k] as nat) == depth);
                    }
                    if stage_systems@.contains(x) {
                        let k = choose|k: int| 0 <= k < stage_systems@.len() && stage_systems@[k] == x;
                    }
                }
            }
            let ghost ss = stage_systems@;
            let ghost old_stages = stages@;
            proof {
                assert(ss.len() > 0);
            }
            if !stage_systems.is_empty() {
                stages.push(ExecutionStage { system_indices: stage_systems, depth });
            }
            proof {
                assert(stages@[depth as int].system_indices@ == ss);
                assert(stages@[depth as int].depth == depth);
                assert forall|k: int| 0 <= k < stages@.len() implies {
                        &&& (#[trigger] stages@[k]).depth == k
                        &&& stages@[k].system_indices@.no_duplicates()
                        &&& stages@[k].system_indices@.len() > 0
                        &&& forall|x: usize|
                            #[trigger] stages@[k].system_indices@.contains(x) <==> (x < count && level(acc, x as nat) == k)
                    } by {
                    if k < depth {
                        assert(stages@[k] == old_stages[k]);
                    }
                }
                assert forall|k: int| 0 <= k < stages@.len() implies (#[trigger] stages@[k]).system_indices@ == at_level(acc, sorted@, k) by {
                    if k < depth {
                        assert(stages@[k] == old_stages[k]);
                    }
                }
            }
            depth = depth + 1;
        }
        proof {
            assert forall|v: nat| v < acc.len() implies #[trigger] level(acc, v) < stages@.len() by {
                assert(level(acc, v) <= max_depth);
            }
        }
        stages
    }

    /// Place any system that no stage holds yet into the first stage at or
    /// after its level that it does not conflict with, opening a new stage
    /// when none fits. When every system already has a stage, nothing changes.
    #[verifier::rlimit(60)]
    fn optimize_stages(
        stages: &mut Vec<ExecutionStage>,
        accesses: &[SystemAccess],
        sorted: &[usize],
        depths: &[usize],
    )
        requires
            accesses@.len() <= usize::MAX / 96,
            depths@.len() == accesses@.len(),
            sorted@.len() <= accesses@.len(),
            forall|k: int| 0 <= k < sorted@.len() ==> #[trigger] sorted@[k] < accesses@.len(),
            forall|k: int| 0 <= k < old(stages)@.len() ==> (#[trigger] old(stages)@[k]).depth <= accesses@.len(),
            forall|k: int, x: int|
                0 <= k < old(stages)@.len() && 0 <= x < old(stages)@[k].system_indices@.len()
                    ==> #[trigger] old(stages)@[k].system_indices@[x] < accesses@.len(),
        ensures
            (forall|k: int| 0 <= k < sorted@.len() ==> in_some_stage(old(stages)@, #[trigger] sorted@[k]))
                ==> final(stages)@ == old(stages)@,
            stages_grown(old(stages)@, final(stages)@),
            forall|k: int| 0 <= k < sorted@.len() ==> in_some_stage(final(stages)@, #[trigger] sorted@[k]),
            placed_first_fit(accesses@, depths@, sorted@, old(stages)@, final(stages)@),
    {
        let count = accesses.len();
        let ghost bound = 2 * count;
        let ghost all_assigned = forall|k: int| 0 <= k < sorted@.len() ==> in_some_stage(old(stages)@, #[trigger] sorted@[k]);
        let mut assigned = fx_set_new();
        let mut s: usize = 0;
        while s < stages.len()
            invariant
                stages@ == old(stages)@,
                s <= stages@.len(),
                forall|x: usize| #[trigger] assigned@.contains(x) <==> exists|t: int|
                    0 <= t < s && #[trigger] stages@[t].system_indices@.contains(x),
            decreases stages@.len() - s,
        {
            let mut x: usize = 0;
            while x < stages[s].system_indices.len()
                invariant
                    stages@ == old(stages)@,
                    s < stages@.len(),
                    x <= stages@[s as int].system_indices@.len(),
                    forall|y: usize| #[trigger] assigned@.contains(y) <==> (exists|t: int|
                        0 <= t < s && #[trigger] stages@[t].system_indices@.contains(y))
                        || stages@[s as int].system_indices@.subrange(0, x as int).contains(y),
                decreases stages@[s as int].system_indices@.len() - x,
            {
                let idx = stages[s].system_indices[x];
                let ghost old_assigned = assigned@;
                fx_set_insert(&mut assigned, idx);
                proof {
                    let cur = stages@[s as int].system_indices@;
                    assert(cur.subrange(0, x + 1) =~= cur.subrange(0, x as int).push(idx));
                    assert forall|y: usize| cur.subrange(0, x + 1).contains(y) <==> (cur.subrange(0, x as int).contains(y) || y == idx) by {
                        lemma_push_contains(cur.subrange(0, x as int), idx, y);
                    }
                    assert forall|y: usize| #[trigger] assigned@.contains(y) <==> (exists|t: int|
                        0 <= t < s && #[trigger] stages@[t].system_indices@.contains(y))
                        || cur.subrange(0, x + 1).contains(y) by {
                        assert(assigned@.contains(y) <==> (old_assigned.contains(y) || y == idx));
                    }
                }
                x = x + 1;
            }
            proof {
                let cur = stages@[s as int].system_indices@;
                assert(cur.subrange(0, cur.len() as int) =~= cur);
                assert forall|y: usize| #[trigger] assigned@.contains(y) <==> exists|t: int|
                    0 <= t < s + 1 && #[trigger] stages@[t].system_indices@.contains(y) by {
                    if stages@[s as int].system_indices@.contains(y) {
                        assert(0 <= s < s + 1);
                    }
                    if exists|t: int| 0 <= t < s + 1 && #[trigger] stages@[t].system_indices@.contains(y) {
                        let t = choose|t: int| 0 <= t < s + 1 && #[trigger] stages@[t].system_indices@.contains(y);
                        if t < s {
                            assert(exists|t: int| 0 <= t < s && #[trigger] stages@[t].system_indices@.contains(y));
                        }
                    }
                }
            }
            s = s + 1;
        }
        let mut unassigned: Vec<usize> = Vec::new();
        let mut k: usize = 0;
        while k < sorted.len()
            invariant
                stages@ == old(stages)@,
                k <= sorted@.len(),
                unassigned@.len() <= k,
                forall|j: int| 0 <= j < unassigned@.len() ==> #[trigger] unassigned@[j] < count,
                count == accesses@.len(),
                forall|k: int| 0 <= k < sorted@.len() ==> #[trigger] sorted@[k] < accesses@.len(),
                forall|x: usize| #[trigger] assigned@.contains(x) <==> exists|t: int|
                    0 <= t < stages@.len() && #[trigger] stages@[t].system_indices@.contains(x),
                all_assigned ==> unassigned@.len() == 0,
                all_assigned == forall|k: int| 0 <= k < sorted@.len() ==> in_some_stage(old(stages)@, #[trigger] sorted@[k]),
                forall|j: int| 0 <= j < k ==> in_some_stage(old(stages)@, #[trigger] sorted@[j]) || unassigned@.contains(sorted@[j]),
                forall|j: int| 0 <= j < unassigned@.len() ==> sorted@.contains(#[trigger] unassigned@[j]),
            decreases sorted@.len() - k,
        {
            let sys = sorted[k];
            let ghost un0 = unassigned@;
            if !fx_set_contains(&assigned, sys) {
                proof {
                    if all_assigned {
                        assert(in_some_stage(old(stages)@, sorted@[k as int]));
                    }
                }
                unassigned.push(sys);
                proof {
                    assert forall|j: int| 0 <= j < unassigned@.len() implies sorted@.contains(#[trigger] unassigned@[j]) by {
                        if j < un0.len() {
                            assert(unassigned@[j] == un0[j]);
                        } else {
                            assert(sorted@[k as int] == sys);
                        }
                    }
                }
            }
            proof {
                assert forall|j: int| 0 <= j < k + 1 implies in_some_stage(old(stages)@, #[trigger] sorted@[j]) || unassigned@.contains(sorted@[j]) by {
                    lemma_push_contains(un0, sys, sorted@[j]);
                    if j == k && assigned@.contains(sys) {
                        let t = choose|t: int| 0 <= t < stages@.len() && #[trigger] stages@[t].system_indices@.contains(sys);
                        assert(old(stages)@[t].system_indices@.contains(sys));
                    }
                }
            }
            k = k + 1;
        }
        proof {
            lemma_grown_refl(old(stages)@);
            assert(placed_first_fit(accesses@, depths@, sorted@, old(stages)@, stages@));
        }
        assert(unassigned@.len() <= bound);
        while !unassigned.is_empty()
            invariant
                unassigned@.len() <= bound,
                count == accesses@.len(),
                count <= usize::MAX / 96,
                bound == 2 * count,
                depths@.len() == count,
                forall|j: int| 0 <= j < unassigned@.len() ==> #[trigger] unassigned@[j] < count,
                forall|j: int| 0 <= j < stages@.len() ==> (#[trigger] stages@[j]).depth + unassigned@.len() <= bound,
                forall|j: int, x: int|
                    0 <= j < stages@.len() && 0 <= x < stages@[j].system_indices@.len()
                        ==> #[trigger] stages@[j].system_indices@[x] < count,
                all_assigned ==> unassigned@.len() == 0 && stages@ == old(stages)@,
                stages_grown(old(stages)@, stages@),
                forall|k: int| 0 <= k < sorted@.len() ==> in_some_stage(stages@, #[trigger] sorted@[k]) || unassigned@.contains(sorted@[k]),
                placed_first_fit(accesses@, depths@, sorted@, old(stages)@, stages@),
                forall|j: int| 0 <= j < unassigned@.len() ==> sorted@.contains(#[trigger] unassigned@[j]),
            decreases unassigned@.len(),
        {
            let mut next_unassigned: Vec<usize> = Vec::new();
            let mut u: usize = 0;
            proof {
                assert forall|k: int| 0 <= k < sorted@.len() implies in_some_stage(stages@, #[trigger] sorted@[k]) || awaiting(unassigned@, 0, next_unassigned@, sorted@[k]) by {
                    if unassigned@.contains(sorted@[k]) {
                        let j = choose|j: int| 0 <= j < unassigned@.len() && unassigned@[j] == sorted@[k];
                    }
                }
            }
            while u < unassigned.len()
                invariant
                    count == accesses@.len(),
                    count <= usize::MAX / 96,
                    bound == 2 * count,
                    depths@.len() == count,
                    u <= unassigned@.len(),
                    next_unassigned@.len() <= u,
                    forall|j: int| 0 <= j < unassigned@.len() ==> #[trigger] unassigned@[j] < count,
                    forall|j: int| 0 <= j < next_unassigned@.len() ==> #[trigger] next_unassigned@[j] < count,
                    forall|j: int| 0 <= j < stages@.len() ==> (#[trigger] stages@[j]).depth + unassigned@.len() <= bound,
                    forall|j: int, x: int|
                        0 <= j < stages@.len() && 0 <= x < stages@[j].system_indices@.len()
                            ==> #[trigger] stages@[j].system_indices@[x] < count,
                    stages_grown(old(stages)@, stages@),
                    forall|k: int| 0 <= k < sorted@.len() ==> in_some_stage(stages@, #[trigger] sorted@[k]) || awaiting(unassigned@, u as int, next_unassigned@, sorted@[k]),
                    placed_first_fit(accesses@, depths@, sorted@, old(stages)@, stages@),
                    forall|j: int| 0 <= j < unassigned@.len() ==> sorted@.contains(#[trigger] unassigned@[j]),
                    forall|j: int| 0 <= j < next_unassigned@.len() ==> sorted@.contains(#[trigger] next_unassigned@[j]),
                    forall|j: int, t2: int|
                        0 <= j < next_unassigned@.len() && 0 <= t2 < stages@.len() && stages@[t2].depth >= depths@[next_unassigned@[j] as int]
                            ==> #[trigger] conflicts_in(accesses@, stages@[t2], next_unassigned@[j]),
                decreases unassigned@.len() - u,
            {
                let sys_idx = unassigned[u];
                let target_depth = depths[sys_idx];
                let mut placed = false;
                let mut t: usize = 0;
                let ghost s0 = stages@;
                let ghost next0 = next_unassigned@;
                while t < stages.len()
                    invariant_except_break
                        !placed,
                        stages@ == s0,
                        forall|t2: int| 0 <= t2 < t && stages@[t2].depth >= target_depth ==> #[trigger] conflicts_in(accesses@, stages@[t2], sys_idx),
                    invariant
                        stages@.len() == s0.len(),
                        target_depth == depths@[sys_idx as int],
                        sorted@.contains(sys_idx),
                        stages_grown(old(stages)@, s0),
                        placed_first_fit(accesses@, depths@, sorted@, old(stages)@, stages@),
                        count == accesses@.len(),
                        sys_idx < count,
                        t <= stages@.len(),
                        placed ==> stages_grown(s0, stages@) && in_some_stage(stages@, sys_idx),
                        forall|j: int| 0 <= j < stages@.len() ==> (#[trigger] stages@[j]).depth + unassigned@.len() <= bound,
                        forall|j: int, x: int|
                            0 <= j < stages@.len() && 0 <= x < stages@[j].system_indices@.len()
                                ==> #[trigger] stages@[j].system_indices@[x] < count,
                    ensures
                        stages@.len() == s0.len(),
                        placed_first_fit(accesses@, depths@, sorted@, old(stages)@, stages@),
                        !placed ==> forall|t2: int| 0 <= t2 < stages@.len() && stages@[t2].depth >= target_depth ==> #[trigger] conflicts_in(accesses@, stages@[t2], sys_idx),
                        !placed ==> stages@ == s0,
                        placed ==> stages_grown(s0, stages@) && in_some_stage(stages@, sys_idx),
                    decreases stages@.len() - t,
                {
                    if stages[t].depth >= target_depth {
                        let mut can_add = true;
                        let mut e: usize = 0;
                        while e < stages[t].system_indices.len()
                            invariant_except_break
                                can_add,
                            invariant
                                forall|q: int| 0 <= q < e ==> !accesses_conflict(accesses@[sys_idx as int], accesses@[#[trigger] stages@[t as int].system_indices@[q] as int]),
                                count == accesses@.len(),
                                sys_idx < count,
                                t < stages@.len(),
                                e <= stages@[t as int].system_indices@.len(),
                                stages@ == s0,
                                !placed,
                                forall|j: int, x: int|
                                    0 <= j < stages@.len() && 0 <= x < stages@[j].system_indices@.len()
                                        ==> #[trigger] stages@[j].system_indices@[x] < count,
                            ensures
                                can_add ==> forall|q: int| 0 <= q < stages@[t as int].system_indices@.len() ==> !accesses_conflict(
                                    accesses@[sys_idx as int],
                                    accesses@[#[trigger] stages@[t as int].system_indices@[q] as int],
                                ),
                                !can_add ==> conflicts_in(accesses@, stages@[t as int], sys_idx),
                            decreases stages@[t as int].system_indices@.len() - e,
                        {
                            let existing_idx = stages[t].system_indices[e];
                            if accesses[sys_idx].conflicts_with(&accesses[existing_idx]) {
                                assert(accesses_conflict(accesses@[sys_idx as int], accesses@[stages@[t as int].system_indices@[e as int] as int]));
                                can_add = false;
                                break ;
                            }
                            e = e + 1;
                        }
                        if can_add {
                            let mut stage = stages.remove(t);
                            let ghost st0 = stage;
                            stage.system_indices.push(sys_idx);
                            stages.insert(t, stage);
                            fx_set_insert(&mut assigned, sys_idx);
                            placed = true;
                            proof {
                                assert(st0 == s0[t as int]);
                                assert forall|j: int| 0 <= j < s0.len() && j != t implies stages@[j] == s0[j] by {}
                                lemma_first_fit_push(accesses@, depths@, sorted@, old(stages)@, s0, stages@, t as int, sys_idx);
                                assert(stages@ =~= s0.update(t as int, stages@[t as int]));
                                assert(stages@[t as int].system_indices@ == st0.system_indices@.push(sys_idx));
                                assert(stages@[t as int].system_indices@.subrange(0, st0.system_indices@.len() as int)
                                    =~= st0.system_indices@);
                                assert(stages@[t as int].system_indices@[st0.system_indices@.len() as int] == sys_idx);
                                assert(stages@[t as int].system_indices@.contains(sys_idx));
                                lemma_grown_refl(s0);
                                assert forall|j: int| 0 <= j < s0.len() implies {
                                    &&& (#[trigger] stages@[j]).depth == s0[j].depth
                                    &&& s0[j].system_indices@.len() <= stages@[j].system_indices@.len()
                                    &&& stages@[j].system_indices@.subrange(0, s0[j].system_indices@.len() as int) == s0[j].system_indices@
                                } by {
                                    if j != t {
                                        assert(stages@[j] == s0[j]);
                                        assert(s0[j].system_indices@.subrange(0, s0[j].system_indices@.len() as int) =~= s0[j].system_indices@);
                                    }
                                }
                            }
                            break ;
                        }
                    }
                    t = t + 1;
                }
                if !placed {
                    next_unassigned.push(sys_idx);
                    proof {
                        lemma_grown_refl(s0);
                        assert forall|j: int| 0 <= j < next_unassigned@.len() implies sorted@.contains(#[trigger] next_unassigned@[j]) by {
                            if j < next0.len() {
                                assert(next_unassigned@[j] == next0[j]);
                            }
                        }
                        assert forall|j: int, t2: int|
                            0 <= j < next_unassigned@.len() && 0 <= t2 < stages@.len() && stages@[t2].depth >= depths@[next_unassigned@[j] as int]
                                implies #[trigger] conflicts_in(accesses@, stages@[t2], next_unassigned@[j]) by {
                            if j < next0.len() {
                                assert(next_unassigned@[j] == next0[j]);
                            }
                        }
                    }
                } else {
                    proof {
                        assert forall|j: int, t2: int|
                            0 <= j < next_unassigned@.len() && 0 <= t2 < stages@.len() && stages@[t2].depth >= depths@[next_unassigned@[j] as int]
                                implies #[trigger] conflicts_in(accesses@, stages@[t2], next_unassigned@[j]) by {
                            assert(s0[t2].depth == stages@[t2].depth);
                            assert(conflicts_in(accesses@, s0[t2], next_unassigned@[j]));
                            lemma_grown_conflicts(accesses@, s0, stages@, t2, next_unassigned@[j]);
                        }
                    }
                }
                proof {
                    lemma_grown_trans(old(stages)@, s0, stages@);
                    assert forall|k: int| 0 <= k < sorted@.len() implies in_some_stage(stages@, #[trigger] sorted@[k]) || awaiting(unassigned@, u + 1, next_unassigned@, sorted@[k]) by {
                        let x = sorted@[k];
                        lemma_push_contains(next0, sys_idx, x);
                        if in_some_stage(s0, x) {
                            lemma_grown_keeps(s0, stages@, x);
                        } else if x == sys_idx {
                        } else if next0.contains(x) {
                        } else {
                            let j = choose|j: int| u <= j < unassigned@.len() && unassigned@[j] == x;
                            assert(j != u);
                        }
                    }
                }
                u = u + 1;
            }
            proof {
                assert forall|k: int| 0 <= k < sorted@.len() implies in_some_stage(stages@, #[trigger] sorted@[k]) || next_unassigned@.contains(sorted@[k]) by {
                    if awaiting(unassigned@, u as int, next_unassigned@, sorted@[k]) {
                        if !next_unassigned@.contains(sorted@[k]) {
                            let j = choose|j: int| u <= j < unassigned@.len() && unassigned@[j] == sorted@[k];
                        }
                    }
                }
            }
            if next_unassigned.len() == unassigned.len() && !next_unassigned.is_empty() {
                let ghost next_full = next_unassigned@;
                let sys_idx = next_unassigned.remove(0);
                let new_depth = if stages.len() > 0 {
                    stages[stages.len() - 1].depth + 1
                } else {
                    0
                };
                let mut only: Vec<usize> = Vec::new();
                only.push(sys_idx);
                let ghost old_stages = stages@;
                stages.push(ExecutionStage { system_indices: only, depth: new_depth });
                fx_set_insert(&mut assigned, sys_idx);
                proof {
                    assert(next_full[0] == sys_idx);
                    assert(sorted@.contains(sys_idx));
                    assert(stages@[old_stages.len() as int].system_indices@ =~= seq![sys_idx]);
                    assert forall|t2: int| 0 <= t2 < old_stages.len() && old_stages[t2].depth >= depths@[sys_idx as int] implies #[trigger] conflicts_in(accesses@, old_stages[t2], sys_idx) by {
                        assert(conflicts_in(accesses@, old_stages[t2], next_full[0]));
                    }
                    assert forall|j: int| 0 <= j < old_stages.len() implies stages@[j] == old_stages[j] by {}
                    lemma_first_fit_new_stage(accesses@, depths@, sorted@, old(stages)@, old_stages, stages@, sys_idx);
                    assert forall|j: int| 0 <= j < next_unassigned@.len() implies sorted@.contains(#[trigger] next_unassigned@[j]) by {
                        assert(next_unassigned@[j] == next_full[j + 1]);
                    }
                    assert(next_unassigned@.len() + 1 == unassigned@.len());
                    assert forall|j: int| 0 <= j < stages@.len() implies (#[trigger] stages@[j]).depth + next_unassigned@.len() <= bound by {
                        if j < old_stages.len() {
                            assert(stages@[j] == old_stages[j]);
                        }
                    }
                    assert forall|j: int, x: int|
                        0 <= j < stages@.len() && 0 <= x < stages@[j].system_indices@.len()
                            implies #[trigger] stages@[j].system_indices@[x] < count by {
                        if j < old_stages.len() {
                            assert(stages@[j] == old_stages[j]);
                        }
                    }
                    lemma_grown_refl(old_stages);
                    assert forall|j: int| 0 <= j < old_stages.len() implies {
                        &&& (#[trigger] stages@[j]).depth == old_stages[j].depth
                        &&& old_stages[j].system_indices@.len() <= stages@[j].system_indices@.len()
                        &&& stages@[j].system_indices@.subrange(0, old_stages[j].system_indices@.len() as int) == old_stages[j].system_indices@
                    } by {
                        assert(stages@[j] == old_stages[j]);
                        assert(old_stages[j].system_indices@.subrange(0, old_stages[j].system_indices@.len() as int) =~= old_stages[j].system_indices@);
                    }
                    lemma_grown_trans(old(stages)@, old_stages, stages@);
                    let last = stages@.len() - 1;
                    assert(stages@[last].system_indices@ == seq![sys_idx]);
                    assert(stages@[last].system_indices@[0] == sys_idx);
                    assert(stages@[last].system_indices@.contains(sys_idx));
                    assert(in_some_stage(stages@, sys_idx));
                    assert forall|k: int| 0 <= k < sorted@.len() implies in_some_stage(stages@, #[trigger] sorted@[k]) || next_unassigned@.contains(sorted@[k]) by {
                        let x = sorted@[k];
                        if in_some_stage(old_stages, x) {
                            lemma_grown_keeps(old_stages, stages@, x);
                        } else if x != sys_idx && next_full.contains(x) {
                            let j = choose|j: int| 0 <= j < next_full.len() && next_full[j] == x;
                            assert(j != 0);
                            assert(next_unassigned@[j - 1] == x);
                        }
                    }
                }
            }
            unassigned = next_unassigned;
        }
    }

    /// The level of each system: the index of the stage that holds it.
    fn levels_of(stages: &[ExecutionStage], count: usize, Ghost(acc): Ghost<Seq<SystemAccess>>) -> (levels: Vec<usize>)
        requires
            count == acc.len(),
            count <= usize::MAX / 96,
            stages_match_levels(acc, stages@),
        ensures
            levels@.len() == count,
            forall|v: int| 0 <= v < count ==> #[trigger] levels@[v] == level(acc, v as nat),
    {
        let mut levels: Vec<usize> = Vec::new();
        while levels.len() < count
            invariant
                levels@.len() <= count,
                forall|v: int| 0 <= v < levels@.len() ==> #[trigger] levels@[v] == 0,
            decreases count - levels@.len(),
        {
            levels.push(0);
        }
        let mut k: usize = 0;
        while k < stages.len()
            invariant
                count == acc.len(),
                stages_match_levels(acc, stages@),
                k <= stages@.len(),
                levels@.len() == count,
                forall|v: int| 0 <= v < count ==> #[trigger] levels@[v] == if level(acc, v as nat) < k {
                    level(acc, v as nat)
                } else {
                    0
                },
            decreases stages@.len() - k,
        {
            let mut x: usize = 0;
            while x < stages[k].system_indices.len()
                invariant
                    count == acc.len(),
                    stages_match_levels(acc, stages@),
                    k < stages@.len(),
                    x <= stages@[k as int].system_indices@.len(),
                    levels@.len() == count,
                    forall|v: int| 0 <= v < count ==> #[trigger] levels@[v] == if level(acc, v as nat) < k || (
                    level(acc, v as nat) == k && stages@[k as int].system_indices@.subrange(0, x as int).contains(
                        v as usize,
                    )) {
                        level(acc, v as nat)
                    } else {
                        0
                    },
                decreases stages@[k as int].system_indices@.len() - x,
            {
                let v = stages[k].system_indices[x];
                proof {
                    assert(stages@[k as int].system_indices@.contains(v));
                    assert(stages@[k as int].depth == k);
                }
                levels.set(v, k);
                proof {
                    let cur = stages@[k as int].system_indices@;
                    assert(cur.subrange(0, x + 1) =~= cur.subrange(0, x as int).push(v));
                    assert forall|w: int| 0 <= w < count implies #[trigger] levels@[w] == if level(acc, w as nat) < k || (
                    level(acc, w as nat) == k && cur.subrange(0, x + 1).contains(w as usize)) {
                        level(acc, w as nat)
                    } else {
                        0
                    } by {
                        lemma_push_contains(cur.subrange(0, x as int), v, w as usize);
                    }
                }
                x = x + 1;
            }
            proof {
                let cur = stages@[k as int].system_indices@;
                assert(cur.subrange(0, cur.len() as int) =~= cur);
                assert(stages@[k as int].depth == k);
            }
            k = k + 1;
        }
        levels
    }

    /// Find the critical path (longest dependency chain)
    fn find_critical_path(
        stages: &[ExecutionStage],
        dependency_matrix: &[BitSet],
        Ghost(acc): Ghost<Seq<SystemAccess>>,
    ) -> (path: Vec<usize>)
        requires
            acc.len() <= usize::MAX / 96,
            matrix_ok(acc, dependency_matrix@),
            stages_match_levels(acc, stages@),
        ensures
            path@ == critical_path_of(acc, stages@),
    {
        if stages.len() == 0 {
            let path: Vec<usize> = Vec::new();
            return path;
        }
        let count = dependency_matrix.len();
        let mut max_depth_system: usize = 0;
        let mut max_depth: usize = 0;
        let mut s: usize = 0;
        while s < stages.len()
            invariant
                stages_match_levels(acc, stages@),
                s <= stages@.len(),
                max_depth == if s == 0 { 0 } else { s - 1 },
                max_depth_system == (if s > 1 && stages@[s - 1].system_indices@.len() > 0 {
                    stages@[s - 1].system_indices@[0] as int
                } else {
                    0
                }),
            decreases stages@.len() - s,
        {
            let stage = &stages[s];
            if stage.depth > max_depth {
                max_depth = stage.depth;
                if stage.system_indices.len() > 0 {
                    max_depth_system = stage.system_indices[0];
                }
            }
            s = s + 1;
        }
        proof {
            assert(stages@[0].depth == 0);
            assert(stages@[0].system_indices@.contains(stages@[0].system_indices@[0]));
            let last = stages@.last();
            if stages@.len() > 1 && last.system_indices@.len() > 0 {
                assert(last.system_indices@.contains(last.system_indices@[0]));
            }
        }
        proof {
            assert(count == acc.len());
            let s0 = stages@[0].system_indices@;
            assert(s0.contains(s0[0]));
            assert(s0[0] < acc.len());
            let last = stages@.last();
            if stages@.len() > 1 && last.system_indices@.len() > 0 {
                assert(stages@[stages@.len() - 1].system_indices@.contains(last.system_indices@[0]));
            }
        }
        let levels = Self::levels_of(stages, count, Ghost(acc));
        let ghost end = max_depth_system as int;
        let mut back: Vec<usize> = Vec::new();
        back.push(max_depth_system);
        let mut current: usize = max_depth_system;
        proof {
            lemma_chain_last(acc, current as int);
            assert(back@.reverse() =~= seq![current]);
            assert(dependency_chain(acc, current as int) + back@.reverse().drop_first() =~= dependency_chain(acc, end));
        }
        loop
            invariant
                count == acc.len(),
                count <= usize::MAX / 96,
                matrix_ok(acc, dependency_matrix@),
                current < count,
                back@.len() > 0,
                back@.last() == current,
                dependency_chain(acc, current as int) + back@.reverse().drop_first() == dependency_chain(acc, end),
                levels@.len() == count,
                forall|v: int| 0 <= v < count ==> #[trigger] levels@[v] == level(acc, v as nat),
            ensures
                back@.reverse() == dependency_chain(acc, end),
            decreases current,
        {
            let mut predecessor: Option<usize> = None;
            let mut i: usize = 0;
            proof {
                lemma_first_dependency(acc, current as int, 0);
            }
            while i < count
                invariant_except_break
                    predecessor is None,
                invariant
                    count == acc.len(),
                    matrix_ok(acc, dependency_matrix@),
                    current < count,
                    i <= count,
                    0 <= first_dependency(acc, current as int, 0) <= current,
                    first_dependency(acc, current as int, 0) < current ==> deepest_step(acc, first_dependency(acc, current as int, 0), current as int),
                    forall|u: int| 0 <= u < first_dependency(acc, current as int, 0) ==> !deepest_step(acc, u, current as int),
                    forall|u: int| 0 <= u < i ==> !deepest_step(acc, u, current as int),
                    levels@.len() == count,
                    forall|v: int| 0 <= v < count ==> #[trigger] levels@[v] == level(acc, v as nat),
                ensures
                    predecessor matches Some(p) ==> p as int == first_dependency(acc, current as int, 0) && p < current,
                    predecessor is None ==> first_dependency(acc, current as int, 0) == current as int,
                decreases count - i,
            {
                proof {
                    lemma_level_bound(acc, i as nat);
                    assert(levels@[i as int] == level(acc, i as nat));
                }
                if dependency_matrix[i].contains(current) && levels[i] + 1 == levels[current] {
                    proof {
                        assert(dependents(acc, i as int).contains(current as nat));
                        assert(levels@[current as int] == level(acc, current as nat));
                        assert(deepest_step(acc, i as int, current as int));
                        lemma_first_dependency(acc, current as int, 0);
                    }
                    predecessor = Some(i);
                    break ;
                }
                i = i + 1;
            }
            proof {
                lemma_first_dependency(acc, current as int, 0);
            }
            match predecessor {
                Some(pred) => {
                    let ghost old_back = back@;
                    back.push(pred);
                    proof {
                        assert(back@.reverse().drop_first() =~= old_back.reverse());
                        assert(old_back.reverse() =~= seq![current] + old_back.reverse().drop_first());
                        assert(dependency_chain(acc, current as int) == dependency_chain(acc, pred as int).push(current));
                        assert(dependency_chain(acc, pred as int) + back@.reverse().drop_first() =~= dependency_chain(acc, current as int) + old_back.reverse().drop_first());
                    }
                    current = pred;
                },
                None => {
                    proof {
                        assert(dependency_chain(acc, current as int) == seq![current]);
                        assert(back@.reverse() =~= seq![current] + back@.reverse().drop_first());
                    }
                    break ;
                },
            }
        }
        let mut path: Vec<usize> = Vec::new();
        let mut j: usize = back.len();
        while j > 0
            invariant
                j <= back@.len(),
                path@ == back@.reverse().subrange(0, (back@.len() - j) as int),
            decreases j,
        {
            j = j - 1;
            path.push(back[j]);
            proof {
                assert(path@ =~= back@.reverse().subrange(0, (back@.len() - j) as int));
            }
        }
        proof {
            assert(back@.reverse().subrange(0, back@.len() as int) =~= back@.reverse());
        }
        path
    }

    /// Get execution stages
    pub fn stages(&self) -> (r: &[ExecutionStage])
        ensures
            r@ == self.stage_seq(),
    {
        self.stages.as_slice()
    }

    /// Get number of stages
    pub fn stage_count(&self) -> (r: usize)
        ensures
            r == self.stage_seq().len(),
    {
        self.stages.len()
    }

    /// Get critical path
    pub fn critical_path(&self) -> (r: &[usize])
        ensures
            r@ == self.path(),
    {
        self.critical_path.as_slice()
    }

    /// Check if a system is on the critical path
    pub fn is_critical(&self, system_index: usize) -> (r: bool)
        ensures
            r == self.path().contains(system_index),
    {
        let mut i: usize = 0;
        while i < self.critical_path.len()
            invariant
                i <= self.critical_path@.len(),
                forall|k: int| 0 <= k < i ==> self.critical_path@[k] != system_index,
            decreases self.critical_path@.len() - i,
        {
            if self.critical_path[i] == system_index {
                return true;
            }
            i = i + 1;
        }
        false
    }
}

} // verus!

