//! System dependency graph, its topological order, and parallel stages.

use crate::error::{EcsError, Result};
use crate::system::{accesses_conflict, SystemAccess, SystemId};
use std::collections::VecDeque;
use vstd::prelude::*;

verus! {

/// System node in dependency graph
#[derive(Debug, Clone)]
pub struct SystemNode {
    pub id: SystemId,
    pub access: SystemAccess,
}

/// Dependency graph for systems. Node `i` has id `i`; `edges[i]` lists the
/// systems that must run after system `i`, `reverse_edges[i]` those that
/// must run before it.
pub struct SystemGraph {
    pub nodes: Vec<SystemNode>,
    pub edges: Vec<Vec<SystemId>>,
    pub reverse_edges: Vec<Vec<SystemId>>,
}

/// Two accesses declare the same reads and writes.
pub open spec fn same_access(a: SystemAccess, b: SystemAccess) -> bool {
    a.reads@ == b.reads@ && a.writes@ == b.writes@
}

/// Edge `a -> b` of the graph: `b` must run after `a`.
pub open spec fn graph_edge(g: SystemGraph, a: int, b: int) -> bool {
    &&& 0 <= a < g.nodes@.len()
    &&& 0 <= b < g.nodes@.len()
    &&& g.edges@[a]@.contains(SystemId(b as u32))
}

/// Node ids are positions, both adjacency lists agree, and no list repeats an id.
pub open spec fn graph_wf(g: SystemGraph) -> bool {
    let n = g.nodes@.len();
    &&& n <= u32::MAX
    &&& g.edges@.len() == n
    &&& g.reverse_edges@.len() == n
    &&& forall|i: int| 0 <= i < n ==> (#[trigger] g.nodes@[i]).id == SystemId(i as u32)
    &&& forall|a: int, k: int|
        0 <= a < n && 0 <= k < g.edges@[a]@.len() ==> (#[trigger] g.edges@[a]@[k]).0 < n
    &&& forall|b: int, k: int|
        0 <= b < n && 0 <= k < g.reverse_edges@[b]@.len() ==> (
        #[trigger] g.reverse_edges@[b]@[k]).0 < n
    &&& forall|a: int, b: int|
        0 <= a < n && 0 <= b < n ==> (#[trigger] g.edges@[a]@.contains(SystemId(b as u32))
            <==> #[trigger] g.reverse_edges@[b]@.contains(SystemId(a as u32)))
    &&& forall|a: int| 0 <= a < n ==> (#[trigger] g.edges@[a])@.no_duplicates()
    &&& forall|b: int| 0 <= b < n ==> (#[trigger] g.reverse_edges@[b])@.no_duplicates()
}

/// `order` lists every node once and puts the source of each edge before its target.
pub open spec fn is_topological(g: SystemGraph, order: Seq<usize>) -> bool {
    &&& order.len() == g.nodes@.len()
    &&& order.no_duplicates()
    &&& forall|i: int| 0 <= i < order.len() ==> #[trigger] order[i] < g.nodes@.len()
    &&& forall|i: int, j: int|
        0 <= i < order.len() && 0 <= j < order.len() && graph_edge(g, #[trigger] order[i] as int, #[trigger] order[j] as int) ==> i < j
}

/// The graph has no cycle: some order respects every edge.
pub open spec fn has_topological_order(g: SystemGraph) -> bool {
    exists|order: Seq<usize>| #[trigger] is_topological(g, order)
}

/// Ids as positions.
pub open spec fn id_positions(ids: Seq<SystemId>) -> Seq<usize> {
    ids.map_values(|id: SystemId| id.0 as usize)
}

/// The nodes `v < m` with no incoming edge, in index order.
pub open spec fn graph_sources_below(g: SystemGraph, m: int) -> Seq<usize>
    decreases m,
{
    if m <= 0 {
        Seq::empty()
    } else {
        let r = graph_sources_below(g, m - 1);
        if not_done(g.reverse_edges@[m - 1]@, Seq::empty()) == 0 {
            r.push((m - 1) as usize)
        } else {
            r
        }
    }
}

/// Among the first `m` successors of `u`, in edge-list order, those left with
/// no incoming edge from outside `done`.
pub open spec fn graph_released(g: SystemGraph, u: int, done: Seq<usize>, m: int) -> Seq<usize>
    decreases m,
{
    if m <= 0 {
        Seq::empty()
    } else {
        let r = graph_released(g, u, done, m - 1);
        let v = g.edges@[u]@[m - 1].0 as usize;
        if not_done(g.reverse_edges@[v as int]@, done) == 0 {
            r.push(v)
        } else {
            r
        }
    }
}

/// Kahn's algorithm on the graph after `i` steps, as (nodes taken so far,
/// queue): the queue starts with the nodes without incoming edges, in index
/// order; each step takes the queue's first node and appends, in the order of
/// its edge list, the successors that no longer wait for any node.
pub open spec fn graph_kahn_state(g: SystemGraph, i: nat) -> (Seq<usize>, Seq<usize>)
    decreases i,
{
    if i == 0 {
        (Seq::empty(), graph_sources_below(g, g.nodes@.len() as int))
    } else {
        let prev = graph_kahn_state(g, (i - 1) as nat);
        if prev.1.len() == 0 {
            prev
        } else {
            let u = prev.1[0];
            let done = prev.0.push(u);
            (done, prev.1.drop_first() + graph_released(g, u as int, done, g.edges@[u as int]@.len() as int))
        }
    }
}

/// The order in which Kahn's algorithm takes the nodes.
pub open spec fn graph_kahn_order(g: SystemGraph) -> Seq<usize> {
    graph_kahn_state(g, g.nodes@.len()).0
}

/// Once the queue is empty, further steps change nothing.
proof fn lemma_graph_kahn_fixed(g: SystemGraph, i: nat, j: nat)
    requires
        i <= j,
        graph_kahn_state(g, i).1.len() == 0,
    ensures
        graph_kahn_state(g, j) == graph_kahn_state(g, i),
    decreases j,
{
    if i < j {
        lemma_graph_kahn_fixed(g, i, (j - 1) as nat);
    }
}

/// Number of ids in `s` that are not in `done`.
pub open spec fn not_done(s: Seq<SystemId>, done: Seq<usize>) -> nat
    decreases s.len(),
{
    if s.len() == 0 {
        0
    } else {
        not_done(s.drop_last(), done) + if done.contains(s.last().0 as usize) {
            0nat
        } else {
            1nat
        }
    }
}

proof fn lemma_not_done_push(s: Seq<SystemId>, done: Seq<usize>, node: usize)
    requires
        s.no_duplicates(),
        !done.contains(node),
        node <= u32::MAX,
        forall|k: int| 0 <= k < s.len() ==> (#[trigger] s[k]).0 <= u32::MAX,
    ensures
        not_done(s, done.push(node)) + (if s.contains(SystemId(node as u32)) { 1nat } else { 0nat })
            == not_done(s, done),
    decreases s.len(),
{
    broadcast use vstd::seq_lib::group_seq_properties;

    if s.len() > 0 {
        let p = s.drop_last();
        assert(p.no_duplicates());
        lemma_not_done_push(p, done, node);
        assert(s == p.push(s.last()));
        if s.last() == SystemId(node as u32) {
            assert(!p.contains(SystemId(node as u32))) by {
                if p.contains(SystemId(node as u32)) {
                    let k = choose|k: int| 0 <= k < p.len() && p[k] == SystemId(node as u32);
                    assert(s[k] == s[s.len() - 1]);
                }
            }
        }
    }
}

proof fn lemma_not_done_zero(s: Seq<SystemId>, done: Seq<usize>)
    requires
        not_done(s, done) == 0,
    ensures
        forall|k: int| 0 <= k < s.len() ==> done.contains((#[trigger] s[k]).0 as usize),
    decreases s.len(),
{
    if s.len() > 0 {
        lemma_not_done_zero(s.drop_last(), done);
        assert forall|k: int| 0 <= k < s.len() implies done.contains((#[trigger] s[k]).0 as usize) by {
            if k < s.len() - 1 {
                assert(s.drop_last()[k] == s[k]);
            }
        }
    }
}

proof fn lemma_not_done_all(s: Seq<SystemId>, done: Seq<usize>)
    requires
        forall|k: int| 0 <= k < s.len() ==> done.contains((#[trigger] s[k]).0 as usize),
    ensures
        not_done(s, done) == 0,
    decreases s.len(),
{
    if s.len() > 0 {
        assert forall|k: int| 0 <= k < s.drop_last().len() implies done.contains((#[trigger] s.drop_last()[k]).0 as usize) by {
            assert(s.drop_last()[k] == s[k]);
        }
        lemma_not_done_all(s.drop_last(), done);
        assert(done.contains(s[s.len() - 1].0 as usize));
    }
}

proof fn lemma_not_done_count_all(s: Seq<SystemId>, done: Seq<usize>)
    requires
        forall|k: int| 0 <= k < s.len() ==> !done.contains((#[trigger] s[k]).0 as usize),
    ensures
        not_done(s, done) == s.len(),
    decreases s.len(),
{
    if s.len() > 0 {
        assert forall|k: int| 0 <= k < s.drop_last().len() implies !done.contains((#[trigger] s.drop_last()[k]).0 as usize) by {
            assert(s.drop_last()[k] == s[k]);
        }
        lemma_not_done_count_all(s.drop_last(), done);
        assert(!done.contains(s[s.len() - 1].0 as usize));
    }
}

proof fn lemma_seq_push_contains(a: Seq<usize>, x: usize, v: usize)
    ensures
        a.push(x).contains(v) <==> (a.contains(v) || v == x),
{
    if a.push(x).contains(v) {
        let k = choose|k: int| 0 <= k < a.push(x).len() && a.push(x)[k] == v;
        if k < a.len() {
            assert(a[k] == v);
        }
    }
    if a.contains(v) {
        let k = choose|k: int| 0 <= k < a.len() && a[k] == v;
        assert(a.push(x)[k] == v);
    }
    if v == x {
        assert(a.push(x)[a.len() as int] == v);
    }
}

proof fn lemma_seq_concat_contains(a: Seq<usize>, b: Seq<usize>, v: usize)
    ensures
        (a + b).contains(v) <==> (a.contains(v) || b.contains(v)),
{
    if (a + b).contains(v) {
        let k = choose|k: int| 0 <= k < (a + b).len() && (a + b)[k] == v;
        if k < a.len() {
            assert(a[k] == v);
        } else {
            assert(b[k - a.len()] == v);
        }
    }
    if a.contains(v) {
        let k = choose|k: int| 0 <= k < a.len() && a[k] == v;
        assert((a + b)[k] == v);
    }
    if b.contains(v) {
        let k = choose|k: int| 0 <= k < b.len() && b[k] == v;
        assert((a + b)[a.len() + k] == v);
    }
}

proof fn lemma_distinct_below(s: Seq<usize>, n: usize)
    requires
        s.no_duplicates(),
        forall|i: int| 0 <= i < s.len() ==> #[trigger] s[i] < n,
    ensures
        s.len() <= n,
{
    s.unique_seq_to_set();
    let r = Set::<usize>::range(0usize, n);
    vstd::set_lib::range_set_properties::<usize>(0usize, n);
    assert forall|x: usize| s.to_set().contains(x) implies r.contains(x) by {
        let i = choose|i: int| 0 <= i < s.len() && s[i] == x;
        assert(s[i] < n);
    }
    vstd::set_lib::lemma_len_subset(s.to_set(), r);
}

proof fn lemma_distinct_covers(s: Seq<usize>, n: usize)
    requires
        s.no_duplicates(),
        s.len() == n,
        forall|i: int| 0 <= i < s.len() ==> #[trigger] s[i] < n,
    ensures
        forall|x: usize| x < n ==> #[trigger] s.contains(x),
{
    s.unique_seq_to_set();
    let r = Set::<usize>::range(0usize, n);
    vstd::set_lib::range_set_properties::<usize>(0usize, n);
    assert forall|x: usize| s.to_set().contains(x) implies r.contains(x) by {
        let i = choose|i: int| 0 <= i < s.len() && s[i] == x;
        assert(s[i] < n);
    }
    vstd::set_lib::lemma_subset_equality(s.to_set(), r);
    assert forall|x: usize| x < n implies #[trigger] s.contains(x) by {
        assert(r.contains(x));
        assert(s.to_set().contains(x));
    }
}

proof fn lemma_some_missing(s: Seq<usize>, n: usize) -> (x: usize)
    requires
        s.no_duplicates(),
        s.len() < n,
    ensures
        x < n,
        !s.contains(x),
{
    s.unique_seq_to_set();
    let r = Set::<usize>::range(0usize, n);
    vstd::set_lib::range_set_properties::<usize>(0usize, n);
    if forall|x: usize| x < n ==> #[trigger] s.contains(x) {
        assert(r.subset_of(s.to_set()));
        vstd::set_lib::lemma_len_subset(r, s.to_set());
        assert(false);
    }
    choose|x: usize| x < n && !s.contains(x)
}

proof fn lemma_not_done_witness(s: Seq<SystemId>, done: Seq<usize>) -> (k: int)
    requires
        not_done(s, done) > 0,
    ensures
        0 <= k < s.len(),
        !done.contains(s[k].0 as usize),
{
    if forall|k: int| 0 <= k < s.len() ==> done.contains((#[trigger] s[k]).0 as usize) {
        lemma_not_done_all(s, done);
    }
    choose|k: int| 0 <= k < s.len() && !done.contains(s[k].0 as usize)
}

proof fn lemma_first_missing(order: Seq<usize>, done: Seq<usize>, from: int, witness: int) -> (first: int)
    requires
        0 <= from <= witness < order.len(),
        !done.contains(order[witness]),
        forall|i: int| 0 <= i < from ==> done.contains(#[trigger] order[i]),
    ensures
        0 <= first < order.len(),
        !done.contains(order[first]),
        forall|i: int| 0 <= i < first ==> done.contains(#[trigger] order[i]),
    decreases order.len() - from,
{
    if done.contains(order[from]) {
        lemma_first_missing(order, done, from + 1, witness)
    } else {
        from
    }
}

/// A graph on which every node left out of `done` still waits for a node
/// left out of `done` has no topological order.
proof fn lemma_stuck_has_no_order(g: SystemGraph, done: Seq<usize>)
    requires
        graph_wf(g),
        done.no_duplicates(),
        done.len() < g.nodes@.len(),
        forall|v: usize|
            v < g.nodes@.len() && !done.contains(v) ==> #[trigger] not_done(g.reverse_edges@[v as int]@, done) > 0,
    ensures
        !has_topological_order(g),
{
    let n = g.nodes@.len() as usize;
    if has_topological_order(g) {
        let order = choose|order: Seq<usize>| #[trigger] is_topological(g, order);
        lemma_distinct_covers(order, n);
        let x = lemma_some_missing(done, n);
        assert(order.contains(x));
        let xi = choose|i: int| 0 <= i < order.len() && order[i] == x;
        let first = lemma_first_missing(order, done, 0, xi);
        let v = order[first];
        assert(v < n);
        let rv = g.reverse_edges@[v as int]@;
        let k = lemma_not_done_witness(rv, done);
        let u = rv[k].0;
        assert(u < n);
        assert(rv[k] == SystemId(u));
        assert(rv.contains(SystemId(u as usize as u32)));
        assert(g.edges@[u as int]@.contains(SystemId(v as int as u32)));
        assert(graph_edge(g, u as int, v as int));
        assert(order.contains(u as usize));
        let j = choose|j: int| 0 <= j < order.len() && order[j] == u as usize;
        assert(graph_edge(g, order[j] as int, order[first] as int));
        assert(j < first);
        assert(done.contains(order[j]));
    }
}

impl SystemGraph {

    /// Order the systems so that every edge goes forward (Kahn's algorithm:
    /// systems whose predecessors have all been placed are taken in the order
    /// in which they became ready). Fails exactly when the graph has a cycle.
    pub fn topological_sort(&self) -> (r: Result<Vec<SystemId>>)
        requires
            graph_wf(*self),
        ensures
            r is Ok <==> has_topological_order(*self),
            r matches Ok(ids) ==> is_topological(*self, id_positions(ids@)),
            r matches Ok(ids) ==> id_positions(ids@) == graph_kahn_order(*self),
            r matches Err(e) ==> e == EcsError::SystemCycleDetected,
    {
        let ghost g = *self;
        let count = self.nodes.len();
        let mut in_degree: Vec<usize> = Vec::new();
        let mut i: usize = 0;
        while i < count
            invariant
                graph_wf(g),
                g == *self,
                count == self.nodes@.len(),
                i <= count,
                in_degree@.len() == i,
                forall|v: int| 0 <= v < i ==> #[trigger] in_degree@[v] == not_done(g.reverse_edges@[v]@, Seq::<usize>::empty()),
            decreases count - i,
        {
            proof {
                lemma_not_done_count_all(g.reverse_edges@[i as int]@, Seq::<usize>::empty());
            }
            in_degree.push(self.reverse_edges[i].len());
            i = i + 1;
        }
        let mut queue: VecDeque<usize> = VecDeque::new();
        let mut idx: usize = 0;
        while idx < count
            invariant
                graph_wf(g),
                g == *self,
                count == g.nodes@.len(),
                idx <= count,
                in_degree@.len() == count,
                queue@.no_duplicates(),
                forall|k: int| 0 <= k < queue@.len() ==> #[trigger] queue@[k] < idx,
                forall|v: usize| v < idx ==> (#[trigger] queue@.contains(v) <==> in_degree@[v as int] == 0),
                queue@ == graph_sources_below(g, idx as int),
                forall|v: int| 0 <= v < count ==> #[trigger] in_degree@[v] == not_done(g.reverse_edges@[v]@, Seq::<usize>::empty()),
            decreases count - idx,
        {
            if in_degree[idx] == 0 {
                let ghost q = queue@;
                queue.push_back(idx);
                proof {
                    assert forall|v: usize| #[trigger] queue@.contains(v) <==> (q.contains(v) || v == idx) by {
                        lemma_seq_push_contains(q, idx, v);
                    }
                }
            }
            idx = idx + 1;
        }
        let mut order: Vec<usize> = Vec::new();
        proof {
            assert(graph_kahn_state(g, 0) == (order@, queue@));
            assert(order@ + queue@ =~= queue@);
            assert forall|v: int| 0 <= v < count implies #[trigger] in_degree@[v] == not_done(g.reverse_edges@[v]@, order@) by {
                assert(order@ == Seq::<usize>::empty());
            }
        }
        loop
            invariant
                graph_wf(g),
                g == *self,
                count == g.nodes@.len(),
                in_degree@.len() == count,
                (order@ + queue@).no_duplicates(),
                forall|k: int| 0 <= k < (order@ + queue@).len() ==> #[trigger] (order@ + queue@)[k] < count,
                forall|v: int| 0 <= v < count ==> #[trigger] in_degree@[v] == not_done(g.reverse_edges@[v]@, order@),
                forall|v: usize| v < count ==> ((order@.contains(v) || queue@.contains(v)) <==> #[trigger] in_degree@[v as int] == 0),
                forall|i: int, j: int|
                    0 <= i < order@.len() && 0 <= j < order@.len() && graph_edge(g, #[trigger] order@[i] as int, #[trigger] order@[j] as int) ==> i < j,
                forall|u: int, j: int|
                    0 <= j < order@.len() && #[trigger] graph_edge(g, u, order@[j] as int) ==> order@.contains(u as usize),
                graph_kahn_state(g, order@.len() as nat) == (order@, queue@),
            ensures
                graph_kahn_state(g, order@.len() as nat) == (order@, queue@),
                queue@.len() == 0,
                in_degree@.len() == count,
                order@.no_duplicates(),
                forall|k: int| 0 <= k < order@.len() ==> #[trigger] order@[k] < count,
                forall|v: int| 0 <= v < count ==> #[trigger] in_degree@[v] == not_done(g.reverse_edges@[v]@, order@),
                forall|v: usize| v < count ==> (order@.contains(v) <==> #[trigger] in_degree@[v as int] == 0),
                forall|i: int, j: int|
                    0 <= i < order@.len() && 0 <= j < order@.len() && graph_edge(g, #[trigger] order@[i] as int, #[trigger] order@[j] as int) ==> i < j,
            decreases count - order@.len(),
        {
            proof {
                lemma_distinct_below(order@ + queue@, count);
            }
            let ghost q0 = queue@;
            let ghost old_order = order@;
            let popped = queue.pop_front();
            match popped {
                None => {
                    proof {
                        assert(order@ + queue@ =~= order@);
                        assert forall|v: usize| v < count implies (order@.contains(v) <==> #[trigger] in_degree@[v as int] == 0) by {
                            if queue@.contains(v) {
                                let k = choose|k: int| 0 <= k < queue@.len() && queue@[k] == v;
                            }
                        }
                    }
                    break;
                },
                Some(node) => {
                    proof {
                        assert(old_order.push(node) + queue@ =~= old_order + q0);
                        assert((old_order + q0)[old_order.len() as int] == node);
                        assert(q0.contains(node)) by {
                            assert(q0[0] == node);
                        }
                        assert(!old_order.contains(node)) by {
                            if old_order.contains(node) {
                                let k = choose|k: int| 0 <= k < old_order.len() && old_order[k] == node;
                                assert((old_order + q0)[k] == (old_order + q0)[old_order.len() as int]);
                            }
                        }
                        assert(node < count) by {
                            assert((old_order + q0)[old_order.len() as int] < count);
                        }
                        assert(in_degree@[node as int] == 0);
                        lemma_not_done_zero(g.reverse_edges@[node as int]@, old_order);
                    }
                    order.push(node);
                    let ghost ps = order@;
                    proof {
                        assert(ps + queue@ =~= old_order + q0);
                        assert forall|u: int, j: int|
                            0 <= j < ps.len() && #[trigger] graph_edge(g, u, ps[j] as int) implies ps.contains(u as usize) by {
                            lemma_seq_push_contains(old_order, node, u as usize);
                            if j < old_order.len() {
                                assert(ps[j] == old_order[j]);
                            } else {
                                let rv = g.reverse_edges@[node as int]@;
                                assert(g.edges@[u]@.contains(SystemId(node as int as u32)));
                                assert(rv.contains(SystemId(u as u32)));
                                let k = choose|k: int| 0 <= k < rv.len() && rv[k] == SystemId(u as u32);
                                assert(old_order.contains(rv[k].0 as usize));
                            }
                        }
                        assert forall|i: int, j: int|
                            0 <= i < ps.len() && 0 <= j < ps.len() && graph_edge(g, #[trigger] ps[i] as int, #[trigger] ps[j] as int) implies i < j by {
                            if j < old_order.len() {
                                assert(ps[j] == old_order[j]);
                                if i == old_order.len() {
                                    assert(graph_edge(g, node as int, old_order[j] as int));
                                    assert(old_order.contains(node as int as usize));
                                } else {
                                    assert(ps[i] == old_order[i]);
                                }
                            } else if i == old_order.len() {
                                let rv = g.reverse_edges@[node as int]@;
                                assert(g.edges@[node as int]@.contains(SystemId(node as int as u32)));
                                assert(rv.contains(SystemId(node as u32)));
                                let k = choose|k: int| 0 <= k < rv.len() && rv[k] == SystemId(node as u32);
                                assert(old_order.contains(rv[k].0 as usize));
                            }
                        }
                        assert forall|v: int| 0 <= v < count implies #[trigger] in_degree@[v] == not_done(g.reverse_edges@[v]@, ps)
                            + (if g.edges@[node as int]@.contains(SystemId(v as u32)) { 1nat } else { 0nat }) by {
                            lemma_not_done_push(g.reverse_edges@[v]@, old_order, node);
                        }
                        assert forall|v: usize| v < count implies ((ps.contains(v) || queue@.contains(v)) <==> #[trigger] in_degree@[v as int] == 0) by {
                            lemma_seq_concat_contains(ps, queue@, v);
                            lemma_seq_concat_contains(old_order, q0, v);
                        }
                    }
                    let nbrs = &self.edges[node];
                    let ghost row = nbrs@;
                    let mut k: usize = 0;
                    proof {
                        assert(row.subrange(0, row.len() as int) =~= row);
                        assert(queue@ =~= q0.drop_first() + graph_released(g, node as int, ps, 0));
                    }
                    while k < nbrs.len()
                        invariant
                            queue@ == q0.drop_first() + graph_released(g, node as int, ps, k as int),
                            graph_kahn_state(g, old_order.len() as nat) == (old_order, q0),
                            q0.len() > 0,
                            q0[0] == node,
                            ps == old_order.push(node),
                            graph_wf(g),
                            g == *self,
                            count == g.nodes@.len(),
                            node < count,
                            row == g.edges@[node as int]@,
                            nbrs@ == row,
                            k <= row.len(),
                            in_degree@.len() == count,
                            order@ == ps,
                            (ps + queue@).no_duplicates(),
                            forall|x: int| 0 <= x < (ps + queue@).len() ==> #[trigger] (ps + queue@)[x] < count,
                            forall|v: int| 0 <= v < count ==> #[trigger] in_degree@[v] == not_done(g.reverse_edges@[v]@, ps)
                                + (if row.subrange(k as int, row.len() as int).contains(SystemId(v as u32)) { 1nat } else { 0nat }),
                            forall|v: usize| v < count ==> ((ps.contains(v) || queue@.contains(v)) <==> #[trigger] in_degree@[v as int] == 0),
                        decreases row.len() - k,
                    {
                        let neighbor = nbrs[k].0 as usize;
                        proof {
                            assert(neighbor < count);
                            assert(row.subrange(k as int, row.len() as int)[0] == SystemId(neighbor as u32));
                        }
                        let ghost q1 = queue@;
                        let ghost d1 = in_degree@;
                        in_degree.set(neighbor, in_degree[neighbor] - 1);
                        if in_degree[neighbor] == 0 {
                            queue.push_back(neighbor);
                        }
                        proof {
                            assert forall|v: int| 0 <= v < count implies #[trigger] in_degree@[v] == not_done(g.reverse_edges@[v]@, ps)
                                + (if row.subrange(k + 1, row.len() as int).contains(SystemId(v as u32)) { 1nat } else { 0nat }) by {
                                let tail = row.subrange(k as int, row.len() as int);
                                let rest = row.subrange(k + 1, row.len() as int);
                                assert(tail == seq![row[k as int]] + rest);
                                if v == neighbor {
                                    assert(!rest.contains(SystemId(v as u32))) by {
                                        if rest.contains(SystemId(v as u32)) {
                                            let j = choose|j: int| 0 <= j < rest.len() && rest[j] == SystemId(v as u32);
                                            assert(row[k + 1 + j] == row[k as int]);
                                        }
                                    }
                                } else {
                                    assert(SystemId(v as u32) != row[k as int]);
                                    if tail.contains(SystemId(v as u32)) {
                                        let j = choose|j: int| 0 <= j < tail.len() && tail[j] == SystemId(v as u32);
                                        assert(rest[j - 1] == SystemId(v as u32));
                                    }
                                    if rest.contains(SystemId(v as u32)) {
                                        let j = choose|j: int| 0 <= j < rest.len() && rest[j] == SystemId(v as u32);
                                        assert(tail[j + 1] == SystemId(v as u32));
                                    }
                                }
                            }
                            assert(!(ps.contains(neighbor) || q1.contains(neighbor)));
                            assert forall|v: usize| v < count implies ((ps.contains(v) || queue@.contains(v)) <==> #[trigger] in_degree@[v as int] == 0) by {
                                if in_degree@[neighbor as int] == 0 {
                                    lemma_seq_push_contains(q1, neighbor, v);
                                }
                            }
                            if in_degree@[neighbor as int] == 0 {
                                assert(ps + queue@ =~= (ps + q1).push(neighbor));
                                lemma_seq_concat_contains(ps, q1, neighbor);
                            }
                            assert(in_degree@[neighbor as int] == not_done(g.reverse_edges@[neighbor as int]@, ps));
                            assert(queue@ =~= q0.drop_first() + graph_released(g, node as int, ps, k + 1));
                        }
                        k = k + 1;
                    }
                    proof {
                        assert forall|v: int| 0 <= v < count implies #[trigger] in_degree@[v] == not_done(g.reverse_edges@[v]@, order@) by {
                            assert(row.subrange(k as int, row.len() as int).len() == 0);
                        }
                    }
                },
            }
        }
        proof {
            lemma_distinct_below(order@, count);
            lemma_graph_kahn_fixed(g, order@.len() as nat, count as nat);
        }
        if order.len() != count {
            proof {
                assert forall|v: usize| v < count && !order@.contains(v) implies #[trigger] not_done(g.reverse_edges@[v as int]@, order@) > 0 by {
                    assert(in_degree@[v as int] != 0);
                }
                lemma_distinct_below(order@, count);
                lemma_stuck_has_no_order(g, order@);
            }
            return Err(EcsError::SystemCycleDetected);
        }
        let mut ids: Vec<SystemId> = Vec::new();
        let mut t: usize = 0;
        while t < count
            invariant
                count == order@.len(),
                count <= u32::MAX,
                t <= count,
                forall|x: int| 0 <= x < count ==> #[trigger] order@[x] < count,
                ids@.len() == t,
                forall|x: int| 0 <= x < t ==> #[trigger] ids@[x] == SystemId(order@[x] as u32),
            decreases count - t,
        {
            ids.push(SystemId(order[t] as u32));
            t = t + 1;
        }
        proof {
            assert(id_positions(ids@) =~= order@);
            assert(is_topological(g, order@));
        }
        Ok(ids)
    }
    /// Build the graph of a list of system accesses: system `i` gets id `i`,
    /// and an edge `i -> j` joins every pair `i < j` whose accesses conflict.
    pub fn build(accesses: &[SystemAccess]) -> (g: Self)
        requires
            accesses@.len() <= u32::MAX,
        ensures
            graph_wf(g),
            g.nodes@.len() == accesses@.len(),
            forall|i: int| 0 <= i < accesses@.len() ==> same_access((#[trigger] g.nodes@[i]).access, accesses@[i]),
            forall|a: int, b: int| #[trigger] graph_edge(g, a, b) <==> (0 <= a < b < accesses@.len()
                && accesses_conflict(accesses@[a], accesses@[b])),
    {
        let count = accesses.len();
        let mut nodes: Vec<SystemNode> = Vec::new();
        let mut edges: Vec<Vec<SystemId>> = Vec::new();
        let mut reverse_edges: Vec<Vec<SystemId>> = Vec::new();
        let mut i: usize = 0;
        while i < count
            invariant
                count == accesses@.len(),
                count <= u32::MAX,
                i <= count,
                nodes@.len() == i,
                edges@.len() == i,
                reverse_edges@.len() == i,
                forall|k: int| 0 <= k < i ==> (#[trigger] nodes@[k]).id == SystemId(k as u32) && same_access(nodes@[k].access, accesses@[k]),
                forall|k: int| 0 <= k < i ==> (#[trigger] edges@[k])@ == Seq::<SystemId>::empty(),
                forall|k: int| 0 <= k < i ==> (#[trigger] reverse_edges@[k])@ == Seq::<SystemId>::empty(),
            decreases count - i,
        {
            let access = accesses[i].clone_access();
            nodes.push(SystemNode { id: SystemId(i as u32), access });
            edges.push(Vec::new());
            reverse_edges.push(Vec::new());
            i = i + 1;
        }
        let mut g = SystemGraph { nodes, edges, reverse_edges };
        let ghost acc = accesses@;
        let mut a: usize = 0;
        while a < count
            invariant
                count == acc.len(),
                acc == accesses@,
                count <= u32::MAX,
                a <= count,
                g.nodes@.len() == count,
                g.edges@.len() == count,
                g.reverse_edges@.len() == count,
                forall|k: int| 0 <= k < count ==> (#[trigger] g.nodes@[k]).id == SystemId(k as u32) && same_access(g.nodes@[k].access, acc[k]),
                forall|x: int, k: int| 0 <= x < count && 0 <= k < g.edges@[x]@.len() ==> (#[trigger] g.edges@[x]@[k]).0 < count,
                forall|y: int, k: int| 0 <= y < count && 0 <= k < g.reverse_edges@[y]@.len() ==> (#[trigger] g.reverse_edges@[y]@[k]).0 < count,
                forall|x: int| 0 <= x < count ==> (#[trigger] g.edges@[x])@.no_duplicates(),
                forall|y: int| 0 <= y < count ==> (#[trigger] g.reverse_edges@[y])@.no_duplicates(),
                forall|x: int, y: int| 0 <= x < count && 0 <= y < count ==> (#[trigger] g.edges@[x]@.contains(SystemId(y as u32))
                    <==> (x < a && x < y && accesses_conflict(acc[x], acc[y]))),
                forall|x: int, y: int| 0 <= x < count && 0 <= y < count ==> (#[trigger] g.reverse_edges@[y]@.contains(SystemId(x as u32))
                    <==> (x < a && x < y && accesses_conflict(acc[x], acc[y]))),
            decreases count - a,
        {
            let mut b: usize = a + 1;
            while b < count
                invariant
                    count == acc.len(),
                    acc == accesses@,
                    count <= u32::MAX,
                    a < count,
                    a + 1 <= b <= count,
                    g.nodes@.len() == count,
                    g.edges@.len() == count,
                    g.reverse_edges@.len() == count,
                    forall|k: int| 0 <= k < count ==> (#[trigger] g.nodes@[k]).id == SystemId(k as u32) && same_access(g.nodes@[k].access, acc[k]),
                    forall|x: int, k: int| 0 <= x < count && 0 <= k < g.edges@[x]@.len() ==> (#[trigger] g.edges@[x]@[k]).0 < count,
                    forall|y: int, k: int| 0 <= y < count && 0 <= k < g.reverse_edges@[y]@.len() ==> (#[trigger] g.reverse_edges@[y]@[k]).0 < count,
                    forall|x: int| 0 <= x < count ==> (#[trigger] g.edges@[x])@.no_duplicates(),
                    forall|y: int| 0 <= y < count ==> (#[trigger] g.reverse_edges@[y])@.no_duplicates(),
                    forall|x: int, y: int| 0 <= x < count && 0 <= y < count ==> (#[trigger] g.edges@[x]@.contains(SystemId(y as u32))
                        <==> ((x < a || (x == a && y < b)) && x < y && accesses_conflict(acc[x], acc[y]))),
                    forall|x: int, y: int| 0 <= x < count && 0 <= y < count ==> (#[trigger] g.reverse_edges@[y]@.contains(SystemId(x as u32))
                        <==> ((x < a || (x == a && y < b)) && x < y && accesses_conflict(acc[x], acc[y]))),
                decreases count - b,
            {
                if g.nodes[a].access.conflicts_with(&g.nodes[b].access) {
                    let ghost e0 = g.edges@;
                    let ghost r0 = g.reverse_edges@;
                    let mut row = g.edges.remove(a);
                    let ghost row0 = row@;
                    row.push(SystemId(b as u32));
                    g.edges.insert(a, row);
                    let mut back = g.reverse_edges.remove(b);
                    let ghost back0 = back@;
                    back.push(SystemId(a as u32));
                    g.reverse_edges.insert(b, back);
                    proof {
                        assert(g.edges@[a as int]@ == row0.push(SystemId(b as u32)));
                        assert(forall|x: int| 0 <= x < count && x != a ==> g.edges@[x] == e0[x]);
                        assert(g.reverse_edges@[b as int]@ == back0.push(SystemId(a as u32)));
                        assert(forall|y: int| 0 <= y < count && y != b ==> g.reverse_edges@[y] == r0[y]);
                        assert(row0 == e0[a as int]@);
                        assert(back0 == r0[b as int]@);
                        assert(!row0.contains(SystemId(b as u32)));
                        assert(!back0.contains(SystemId(a as u32)));
                        assert forall|x: int, y: int| 0 <= x < count && 0 <= y < count implies (#[trigger] g.edges@[x]@.contains(SystemId(y as u32))
                            <==> ((x < a || (x == a && y < b + 1)) && x < y && accesses_conflict(acc[x], acc[y]))) by {
                            if x == a {
                                assert(row0.push(SystemId(b as u32)).contains(SystemId(y as u32)) <==> (row0.contains(SystemId(y as u32)) || y == b)) by {
                                    broadcast use vstd::seq_lib::group_seq_properties;
                                }
                            } else {
                                assert(g.edges@[x] == e0[x]);
                            }
                        }
                        assert forall|x: int, y: int| 0 <= x < count && 0 <= y < count implies (#[trigger] g.reverse_edges@[y]@.contains(SystemId(x as u32))
                            <==> ((x < a || (x == a && y < b + 1)) && x < y && accesses_conflict(acc[x], acc[y]))) by {
                            if y == b {
                                assert(back0.push(SystemId(a as u32)).contains(SystemId(x as u32)) <==> (back0.contains(SystemId(x as u32)) || x == a)) by {
                                    broadcast use vstd::seq_lib::group_seq_properties;
                                }
                            } else {
                                assert(g.reverse_edges@[y] == r0[y]);
                            }
                        }
                        assert forall|x: int| 0 <= x < count implies (#[trigger] g.edges@[x])@.no_duplicates() by {
                            if x == a {
                                broadcast use vstd::seq_lib::group_seq_properties;
                            } else {
                                assert(g.edges@[x] == e0[x]);
                            }
                        }
                        assert forall|y: int| 0 <= y < count implies (#[trigger] g.reverse_edges@[y])@.no_duplicates() by {
                            if y == b {
                                broadcast use vstd::seq_lib::group_seq_properties;
                            } else {
                                assert(g.reverse_edges@[y] == r0[y]);
                            }
                        }
                        assert forall|x: int, k: int| 0 <= x < count && 0 <= k < g.edges@[x]@.len() implies (#[trigger] g.edges@[x]@[k]).0 < count by {
                            if x == a && k < row0.len() {
                                assert(g.edges@[x]@[k] == e0[x]@[k]);
                            } else if x != a {
                                assert(g.edges@[x] == e0[x]);
                            }
                        }
                        assert forall|y: int, k: int| 0 <= y < count && 0 <= k < g.reverse_edges@[y]@.len() implies (#[trigger] g.reverse_edges@[y]@[k]).0 < count by {
                            if y == b && k < back0.len() {
                                assert(g.reverse_edges@[y]@[k] == r0[y]@[k]);
                            } else if y != b {
                                assert(g.reverse_edges@[y] == r0[y]);
                            }
                        }
                    }
                }
                b = b + 1;
            }
            a = a + 1;
        }
        g
    }
}

/// A graph whose every edge goes from a lower to a higher position, as
/// `SystemGraph::build` makes it, has a topological order: the order of
/// the positions themselves. Sorting a built graph therefore never fails.
pub proof fn lemma_forward_graph_is_acyclic(g: SystemGraph)
    requires
        graph_wf(g),
        forall|a: int, b: int| #[trigger] graph_edge(g, a, b) ==> a < b,
    ensures
        has_topological_order(g),
{
    let n = g.nodes@.len();
    let order = Seq::new(n, |i: int| i as usize);
    assert(order.no_duplicates());
    assert forall|i: int, j: int|
        0 <= i < order.len() && 0 <= j < order.len() && graph_edge(g, #[trigger] order[i] as int, #[trigger] order[j] as int) implies i < j by {}
    assert(is_topological(g, order));
}

/// The access that the graph records for a system.
pub open spec fn node_access(g: SystemGraph, id: SystemId) -> SystemAccess {
    g.nodes@[id.0 as int].access
}

/// `access` conflicts with no system of `systems`.
pub open spec fn fits(g: SystemGraph, systems: Seq<SystemId>, access: SystemAccess) -> bool {
    forall|k: int| 0 <= k < systems.len() ==> !accesses_conflict(access, #[trigger] node_access(g, systems[k]))
}

/// Every id of `ids` names a node of the graph.
pub open spec fn ids_in_graph(g: SystemGraph, ids: Seq<SystemId>) -> bool {
    forall|k: int| 0 <= k < ids.len() ==> (#[trigger] ids[k]).0 < g.nodes@.len()
}

/// Stage of systems that can run in parallel
#[derive(Debug, Clone)]
pub struct Stage {
    pub systems: Vec<SystemId>,
}

impl Stage {
    pub fn new() -> (r: Self)
        ensures
            r.systems@ == Seq::<SystemId>::empty(),
    {
        Stage { systems: Vec::new() }
    }

    /// Try to add system to this stage: it joins only when its access
    /// conflicts with none of the systems already in the stage.
    pub fn try_add(&mut self, system_id: SystemId, access: &SystemAccess, graph: &SystemGraph) -> (r: bool)
        requires
            graph_wf(*graph),
            ids_in_graph(*graph, old(self).systems@),
        ensures
            r == fits(*graph, old(self).systems@, *access),
            r ==> final(self).systems@ == old(self).systems@.push(system_id),
            !r ==> final(self).systems@ == old(self).systems@,
    {
        let mut i: usize = 0;
        while i < self.systems.len()
            invariant
                graph_wf(*graph),
                ids_in_graph(*graph, self.systems@),
                i <= self.systems@.len(),
                forall|k: int| 0 <= k < i ==> !accesses_conflict(*access, #[trigger] node_access(*graph, self.systems@[k])),
            decreases self.systems@.len() - i,
        {
            let existing_id = self.systems[i];
            let existing_node = &graph.nodes[existing_id.0 as usize];
            if access.conflicts_with(&existing_node.access) {
                assert(accesses_conflict(*access, node_access(*graph, self.systems@[i as int])));
                return false;
            }
            i = i + 1;
        }
        self.systems.push(system_id);
        true
    }
}

impl Default for Stage {
    fn default() -> (r: Self)
        ensures
            r.systems@ == Seq::<SystemId>::empty(),
    {
        Self::new()
    }
}

/// The systems of `stages`, stage after stage.
pub open spec fn flatten(stages: Seq<Stage>) -> Seq<SystemId>
    decreases stages.len(),
{
    if stages.len() == 0 {
        Seq::empty()
    } else {
        flatten(stages.drop_last()) + stages.last().systems@
    }
}

/// No two systems of `systems` conflict.
pub open spec fn conflict_free(g: SystemGraph, systems: Seq<SystemId>) -> bool {
    forall|i: int, j: int|
        0 <= i < j < systems.len() ==> !accesses_conflict(#[trigger] node_access(g, systems[j]), #[trigger] node_access(g, systems[i]))
}

/// The stages that greedy grouping makes of `sorted`: they list `sorted` in
/// order, none is empty or holds two conflicting systems, and each stage
/// after the first opens with a system that conflicts with the stage before.
pub open spec fn greedy_stages(g: SystemGraph, sorted: Seq<SystemId>, stages: Seq<Stage>) -> bool {
    &&& flatten(stages) == sorted
    &&& forall|k: int| 0 <= k < stages.len() ==> (#[trigger] stages[k]).systems@.len() > 0
    &&& forall|k: int| 0 <= k < stages.len() ==> conflict_free(g, (#[trigger] stages[k]).systems@)
    &&& forall|k: int|
        1 <= k < stages.len() ==> !fits(g, stages[k - 1].systems@, node_access(g, (#[trigger] stages[k]).systems@[0]))
}

proof fn lemma_flatten_push(stages: Seq<Stage>, st: Stage)
    ensures
        flatten(stages.push(st)) == flatten(stages) + st.systems@,
{
    assert(stages.push(st).drop_last() =~= stages);
}

/// Group a sorted list of systems into stages: each system joins the current
/// stage unless it conflicts with one of its systems, in which case it opens
/// the next stage.
pub fn group_into_stages(graph: &SystemGraph, sorted: &[SystemId]) -> (stages: Vec<Stage>)
    requires
        graph_wf(*graph),
        ids_in_graph(*graph, sorted@),
    ensures
        greedy_stages(*graph, sorted@, stages@),
{
    let ghost g = *graph;
    let mut stages: Vec<Stage> = Vec::new();
    let mut current = Stage::new();
    let mut i: usize = 0;
    proof {
        assert(flatten(stages@) + current.systems@ =~= sorted@.subrange(0, 0));
    }
    while i < sorted.len()
        invariant
            g == *graph,
            graph_wf(g),
            ids_in_graph(g, sorted@),
            i <= sorted@.len(),
            flatten(stages@) + current.systems@ == sorted@.subrange(0, i as int),
            i > 0 ==> current.systems@.len() > 0,
            ids_in_graph(g, current.systems@),
            conflict_free(g, current.systems@),
            forall|k: int| 0 <= k < stages@.len() ==> (#[trigger] stages@[k]).systems@.len() > 0,
            forall|k: int| 0 <= k < stages@.len() ==> conflict_free(g, (#[trigger] stages@[k]).systems@),
            forall|k: int|
                1 <= k < stages@.len() ==> !fits(g, stages@[k - 1].systems@, node_access(g, (#[trigger] stages@[k]).systems@[0])),
            stages@.len() > 0 && current.systems@.len() > 0 ==> !fits(g, stages@.last().systems@, node_access(g, current.systems@[0])),
        decreases sorted@.len() - i,
    {
        let system_id = sorted[i];
        let node = &graph.nodes[system_id.0 as usize];
        let ghost before = current.systems@;
        let ghost stages0 = stages@;
        if !current.try_add(system_id, &node.access, graph) {
            if !current.systems.is_empty() {
                stages.push(current);
                proof {
                    lemma_flatten_push(stages0, stages@.last());
                    assert(stages@.last().systems@ == before);
                    assert(forall|k: int| 0 <= k < stages0.len() ==> stages@[k] == stages0[k]);
                }
                current = Stage::new();
            }
            current.systems.push(system_id);
            proof {
                assert(current.systems@ =~= seq![system_id]);
            }
        } else {
            proof {
                assert forall|a: int, b: int| 0 <= a < b < current.systems@.len() implies
                    !accesses_conflict(#[trigger] node_access(g, current.systems@[b]), #[trigger] node_access(g, current.systems@[a])) by {
                    if b < before.len() {
                        assert(current.systems@[a] == before[a]);
                        assert(current.systems@[b] == before[b]);
                    } else {
                        assert(current.systems@[a] == before[a]);
                    }
                }
                if before.len() > 0 {
                    assert(current.systems@[0] == before[0]);
                }
            }
        }
        proof {
            assert(sorted@.subrange(0, i + 1) =~= sorted@.subrange(0, i as int).push(system_id));
            assert(flatten(stages@) + current.systems@ =~= sorted@.subrange(0, i + 1));
        }
        i = i + 1;
    }
    if !current.systems.is_empty() {
        let ghost stages0 = stages@;
        stages.push(current);
        proof {
            lemma_flatten_push(stages0, stages@.last());
            assert(forall|k: int| 0 <= k < stages0.len() ==> stages@[k] == stages0[k]);
        }
    }
    proof {
        assert(sorted@.subrange(0, sorted@.len() as int) =~= sorted@);
    }
    stages
}

/// The graph and the stages of a schedule of systems with these accesses:
/// the conflict graph, sorted in Kahn order, then grouped greedily. A graph built this way
/// always has an order, so the result is always `Ok`.
pub fn plan_stages(accesses: &[SystemAccess]) -> (r: Result<(SystemGraph, Vec<Stage>)>)
    requires
        accesses@.len() <= u32::MAX,
    ensures
        r is Ok,
        r matches Ok(plan) ==> {
            &&& graph_wf(plan.0)
            &&& plan.0.nodes@.len() == accesses@.len()
            &&& forall|i: int| 0 <= i < accesses@.len() ==> same_access((#[trigger] plan.0.nodes@[i]).access, accesses@[i])
            &&& forall|a: int, b: int| #[trigger] graph_edge(plan.0, a, b) <==> (0 <= a < b < accesses@.len()
                && accesses_conflict(accesses@[a], accesses@[b]))
            &&& is_topological(plan.0, id_positions(flatten(plan.1@)))
            &&& id_positions(flatten(plan.1@)) == graph_kahn_order(plan.0)
            &&& greedy_stages(plan.0, flatten(plan.1@), plan.1@)
        },
{
    let graph = SystemGraph::build(accesses);
    proof {
        lemma_forward_graph_is_acyclic(graph);
    }
    let sorted = match graph.topological_sort() {
        Ok(ids) => ids,
        Err(e) => {
            return Err(e);
        },
    };
    proof {
        assert forall|k: int| 0 <= k < sorted@.len() implies (#[trigger] sorted@[k]).0 < graph.nodes@.len() by {
            assert(id_positions(sorted@)[k] < graph.nodes@.len());
        }
    }
    let stages = group_into_stages(&graph, &sorted);
    Ok((graph, stages))
}

} // verus!
