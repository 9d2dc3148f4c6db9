//! The system that propagates transforms down the hierarchy: which global
//! transforms it computes, in which order, and from which parent entry.

use crate::entity::EntityId;
use crate::hierarchy::{Children, Parent};
use crate::system::SystemAccess;
use vstd::prelude::*;

verus! {

/// System that updates global transforms based on hierarchy
pub struct HierarchyUpdateSystem;

impl HierarchyUpdateSystem {
    pub fn new() -> Self {
        HierarchyUpdateSystem
    }

    /// Name the system is scheduled under.
    pub fn name(&self) -> (r: &'static str)
        ensures
            r@ == "HierarchyUpdateSystem"@,
    {
        "HierarchyUpdateSystem"
    }

    /// What the system touches: it reads the local transform of type `L`,
    /// `Parent` and `Children`, and writes the global transform of type `G`.
    /// The two transform types hold floating-point data, so the caller names
    /// them.
    pub fn accesses<L: 'static, G: 'static>(&self) -> (access: SystemAccess)
        ensures
            access.reads@.len() == 3,
            access.writes@.len() == 1,
    {
        SystemAccess::empty().read::<L>().read::<Parent>().read::<Children>().write::<G>()
    }
}

impl Default for HierarchyUpdateSystem {
    fn default() -> Self {
        Self::new()
    }
}

/// An entity that has a local transform, and whether it has a `Parent`.
pub type TransformEntity = (EntityId, bool);

/// An entity and its `Children` list.
pub type ChildList = (EntityId, Vec<EntityId>);

/// One global transform to compute: the entity, and the position in the
/// plan of the entry that computes its parent's (`None` for a root).
pub type PlanEntry = (EntityId, Option<usize>);

/// The entity has a local transform.
pub open spec fn has_local(entities: Seq<TransformEntity>, e: EntityId) -> bool {
    exists|k: int| 0 <= k < entities.len() && (#[trigger] entities[k]).0 == e
}

/// The entity has a local transform and no parent.
pub open spec fn is_root(entities: Seq<TransformEntity>, e: EntityId) -> bool {
    exists|k: int| 0 <= k < entities.len() && (#[trigger] entities[k]).0 == e && !entities[k].1
}

/// `c` is listed among the children of `p`.
pub open spec fn child_of(children: Seq<ChildList>, p: EntityId, c: EntityId) -> bool {
    exists|i: int| 0 <= i < children.len() && (#[trigger] children[i]).0 == p && children[i].1@.contains(c)
}

/// Some entry of the plan computes `e`.
pub open spec fn in_plan(plan: Seq<PlanEntry>, e: EntityId) -> bool {
    exists|k: int| 0 <= k < plan.len() && (#[trigger] plan[k]).0 == e
}

/// Hierarchy data as attaching and detaching keep it: no entity is listed
/// twice, no entity has two lists or sits in two lists, and no root sits in
/// a list.
pub open spec fn hierarchy_consistent(entities: Seq<TransformEntity>, children: Seq<ChildList>) -> bool {
    &&& forall|a: int, b: int| 0 <= a < b < entities.len() ==> entities[a].0 != entities[b].0
    &&& forall|a: int, b: int| 0 <= a < b < children.len() ==> children[a].0 != children[b].0
    &&& forall|i: int| 0 <= i < children.len() ==> (#[trigger] children[i]).1@.no_duplicates()
    &&& forall|i: int, j: int, e: EntityId|
        0 <= i < children.len() && 0 <= j < children.len() && #[trigger] children[i].1@.contains(e)
            && #[trigger] children[j].1@.contains(e) ==> i == j
    &&& forall|i: int, e: EntityId|
        0 <= i < children.len() && is_root(entities, e) ==> !#[trigger] children[i].1@.contains(e)
}

/// What the traversal computes: roots and the children of computed entities
/// that have a local transform, each once, every child after the entry of
/// the entity whose list holds it.
pub open spec fn is_update_plan(entities: Seq<TransformEntity>, children: Seq<ChildList>, plan: Seq<PlanEntry>) -> bool {
    &&& forall|k: int| 0 <= k < plan.len() && (#[trigger] plan[k]).1 is None ==> is_root(entities, plan[k].0)
    &&& forall|k: int|
        0 <= k < plan.len() && (#[trigger] plan[k]).1 is Some ==> {
            let j = plan[k].1->Some_0 as int;
            &&& j < k
            &&& child_of(children, plan[j].0, plan[k].0)
            &&& has_local(entities, plan[k].0)
        }
    &&& forall|a: int, b: int| 0 <= a < b < plan.len() ==> plan[a].0 != plan[b].0
    &&& forall|e: EntityId| is_root(entities, e) ==> in_plan(plan, e)
    &&& forall|j: int, c: EntityId|
        0 <= j < plan.len() && #[trigger] child_of(children, plan[j].0, c) && has_local(entities, c) ==> in_plan(plan, c)
}

/// Entities with a local transform that the plan does not compute yet.
pub open spec fn unplanned(entities: Seq<TransformEntity>, plan: Seq<PlanEntry>) -> Set<EntityId> {
    Set::new(|e: EntityId| has_local(entities, e) && !in_plan(plan, e))
}

proof fn lemma_unplanned_finite(entities: Seq<TransformEntity>, plan: Seq<PlanEntry>)
    ensures
        unplanned(entities, plan).finite(),
{
    let ids = entities.map_values(|t: TransformEntity| t.0).to_set();
    assert(unplanned(entities, plan).subset_of(ids)) by {
        assert forall|e: EntityId| unplanned(entities, plan).contains(e) implies ids.contains(e) by {
            let k = choose|k: int| 0 <= k < entities.len() && (#[trigger] entities[k]).0 == e;
            assert(entities.map_values(|t: TransformEntity| t.0)[k] == e);
        }
    }
    vstd::set_lib::lemma_len_subset(unplanned(entities, plan), ids);
}

fn find_list(children: &[ChildList], p: EntityId) -> (r: Option<usize>)
    ensures
        match r {
            Some(i) => i < children@.len() && children@[i as int].0 == p,
            None => forall|i: int| 0 <= i < children@.len() ==> (#[trigger] children@[i]).0 != p,
        },
{
    let mut i: usize = 0;
    while i < children.len()
        invariant
            i <= children@.len(),
            forall|k: int| 0 <= k < i ==> (#[trigger] children@[k]).0 != p,
        decreases children@.len() - i,
    {
        if children[i].0.same(&p) {
            return Some(i);
        }
        i = i + 1;
    }
    None
}

fn local_exists(entities: &[TransformEntity], e: EntityId) -> (r: bool)
    ensures
        r == has_local(entities@, e),
{
    let mut i: usize = 0;
    while i < entities.len()
        invariant
            i <= entities@.len(),
            forall|k: int| 0 <= k < i ==> (#[trigger] entities@[k]).0 != e,
        decreases entities@.len() - i,
    {
        if entities[i].0.same(&e) {
            return true;
        }
        i = i + 1;
    }
    false
}


/// The first three parts of `is_update_plan`: how each entry may stand.
pub open spec fn entries_ok(entities: Seq<TransformEntity>, children: Seq<ChildList>, plan: Seq<PlanEntry>) -> bool {
    &&& forall|k: int| 0 <= k < plan.len() && (#[trigger] plan[k]).1 is None ==> is_root(entities, plan[k].0)
    &&& forall|k: int|
        0 <= k < plan.len() && (#[trigger] plan[k]).1 is Some ==> {
            let j = plan[k].1->Some_0 as int;
            &&& j < k
            &&& child_of(children, plan[j].0, plan[k].0)
            &&& has_local(entities, plan[k].0)
        }
    &&& forall|a: int, b: int| 0 <= a < b < plan.len() ==> plan[a].0 != plan[b].0
}

/// Some stack entry is for `e`.
pub open spec fn on_stack(stack: Seq<(EntityId, usize)>, e: EntityId) -> bool {
    exists|s: int| 0 <= s < stack.len() && (#[trigger] stack[s]).0 == e
}

proof fn lemma_in_plan_push(plan: Seq<PlanEntry>, x: PlanEntry, e: EntityId)
    ensures
        in_plan(plan.push(x), e) <==> (in_plan(plan, e) || e == x.0),
{
    if in_plan(plan.push(x), e) {
        let k = choose|k: int| 0 <= k < plan.push(x).len() && (#[trigger] plan.push(x)[k]).0 == e;
        if k < plan.len() {
            assert(plan[k] == plan.push(x)[k]);
        }
    }
    if in_plan(plan, e) {
        let k = choose|k: int| 0 <= k < plan.len() && (#[trigger] plan[k]).0 == e;
        assert(plan.push(x)[k] == plan[k]);
    }
    if e == x.0 {
        assert(plan.push(x)[plan.len() as int] == x);
    }
}

proof fn lemma_on_stack_push(stack: Seq<(EntityId, usize)>, x: (EntityId, usize), e: EntityId)
    ensures
        on_stack(stack.push(x), e) <==> (on_stack(stack, e) || e == x.0),
{
    if on_stack(stack.push(x), e) {
        let k = choose|k: int| 0 <= k < stack.push(x).len() && (#[trigger] stack.push(x)[k]).0 == e;
        if k < stack.len() {
            assert(stack[k] == stack.push(x)[k]);
        }
    }
    if on_stack(stack, e) {
        let k = choose|k: int| 0 <= k < stack.len() && (#[trigger] stack[k]).0 == e;
        assert(stack.push(x)[k] == stack[k]);
    }
    if e == x.0 {
        assert(stack.push(x)[stack.len() as int] == x);
    }
}

proof fn lemma_unplanned_push(entities: Seq<TransformEntity>, plan: Seq<PlanEntry>, x: PlanEntry)
    requires
        has_local(entities, x.0),
        !in_plan(plan, x.0),
    ensures
        unplanned(entities, plan.push(x)) == unplanned(entities, plan).remove(x.0),
        unplanned(entities, plan).contains(x.0),
        unplanned(entities, plan.push(x)).len() + 1 == unplanned(entities, plan).len(),
{
    lemma_unplanned_finite(entities, plan);
    assert forall|e: EntityId| unplanned(entities, plan.push(x)).contains(e) == unplanned(entities, plan).remove(x.0).contains(e) by {
        lemma_in_plan_push(plan, x, e);
    }
    assert(unplanned(entities, plan.push(x)) =~= unplanned(entities, plan).remove(x.0));
}

proof fn lemma_entries_ok_push(entities: Seq<TransformEntity>, children: Seq<ChildList>, plan: Seq<PlanEntry>, x: PlanEntry)
    requires
        entries_ok(entities, children, plan),
        !in_plan(plan, x.0),
        x.1 is None ==> is_root(entities, x.0),
        x.1 is Some ==> x.1->Some_0 < plan.len() && child_of(children, plan[x.1->Some_0 as int].0, x.0) && has_local(
            entities,
            x.0,
        ),
    ensures
        entries_ok(entities, children, plan.push(x)),
{
    let q = plan.push(x);
    assert forall|k: int| 0 <= k < q.len() && (#[trigger] q[k]).1 is Some implies {
        let j = q[k].1->Some_0 as int;
        &&& j < k
        &&& child_of(children, q[j].0, q[k].0)
        &&& has_local(entities, q[k].0)
    } by {
        if k < plan.len() {
            assert(q[k] == plan[k]);
            let j = plan[k].1->Some_0 as int;
            assert(q[j] == plan[j]);
        } else {
            assert(q[x.1->Some_0 as int] == plan[x.1->Some_0 as int]);
        }
    }
    assert forall|a: int, b: int| 0 <= a < b < q.len() implies q[a].0 != q[b].0 by {
        if b == plan.len() {
            assert(q[a] == plan[a]);
            assert(in_plan(plan, plan[a].0));
        } else {
            assert(q[a] == plan[a] && q[b] == plan[b]);
        }
    }
    assert forall|k: int| 0 <= k < q.len() && (#[trigger] q[k]).1 is None implies is_root(entities, q[k].0) by {
        if k < plan.len() {
            assert(q[k] == plan[k]);
        }
    }
}

impl HierarchyUpdateSystem {
    /// The global transforms `run` computes, in the order it computes them:
    /// for each root in turn (an entity with a local transform and no
    /// parent, in the order given), the root itself, then, taking entities
    /// from a stack, every listed child that has a local transform, paired
    /// with the entry of the entity whose list holds it.
    #[verifier::rlimit(100)]
    #[verifier::spinoff_prover]
    pub fn update_plan(entities: &[TransformEntity], children: &[ChildList]) -> (plan: Vec<PlanEntry>)
        requires
            hierarchy_consistent(entities@, children@),
        ensures
            is_update_plan(entities@, children@, plan@),
    {
        let ghost ents = entities@;
        let ghost chs = children@;
        let mut plan: Vec<PlanEntry> = Vec::new();
        let ghost mut popped: Set<EntityId> = Set::empty();
        let mut i: usize = 0;
        while i < entities.len()
            invariant
                ents == entities@,
                chs == children@,
                hierarchy_consistent(ents, chs),
                i <= ents.len(),
                entries_ok(ents, chs, plan@),
                forall|k: int|
                    0 <= k < plan@.len() && (#[trigger] plan@[k]).1 is None ==> exists|a: int|
                        0 <= a < i && ents[a].0 == plan@[k].0,
                forall|a: int| 0 <= a < i && !ents[a].1 ==> in_plan(plan@, (#[trigger] ents[a]).0),
                forall|e: EntityId| #[trigger] popped.contains(e) <==> in_plan(plan@, e),
                forall|k: int|
                    0 <= k < plan@.len() && (#[trigger] plan@[k]).1 is Some ==> popped.contains(
                        plan@[plan@[k].1->Some_0 as int].0,
                    ),
                forall|q: EntityId, c: EntityId|
                    popped.contains(q) && #[trigger] child_of(chs, q, c) && has_local(ents, c) ==> in_plan(plan@, c),
            decreases ents.len() - i,
        {
            if !entities[i].1 {
                let r = entities[i].0;
                proof {
                    assert(is_root(ents, r)) by {
                        assert(ents[i as int].0 == r && !ents[i as int].1);
                    }
                    if in_plan(plan@, r) {
                        let k = choose|k: int| 0 <= k < plan@.len() && (#[trigger] plan@[k]).0 == r;
                        if plan@[k].1 is None {
                            let a = choose|a: int| 0 <= a < i && ents[a].0 == plan@[k].0;
                            assert(ents[a].0 != ents[i as int].0);
                        } else {
                            let j = plan@[k].1->Some_0 as int;
                            assert(child_of(chs, plan@[j].0, r));
                            let i2 = choose|i2: int| 0 <= i2 < chs.len() && (#[trigger] chs[i2]).0 == plan@[j].0 && chs[i2].1@.contains(r);
                            assert(!chs[i2].1@.contains(r));
                        }
                    }
                    lemma_unplanned_finite(ents, plan@);
                }
                let ghost before = plan@;
                plan.push((r, None));
                let mut stack: Vec<(EntityId, usize)> = Vec::new();
                stack.push((r, plan.len() - 1));
                proof {
                    lemma_in_plan_push(before, (r, None), r);
                    lemma_unplanned_finite(ents, plan@);
                    assert forall|e: EntityId| in_plan(plan@, e) <==> (popped.contains(e) || on_stack(stack@, e)) by {
                        lemma_in_plan_push(before, (r, None), e);
                        if e == r {
                            assert(stack@[0].0 == r);
                        }
                        if on_stack(stack@, e) {
                            let s0 = choose|s0: int| 0 <= s0 < stack@.len() && (#[trigger] stack@[s0]).0 == e;
                        }
                    }
                    assert forall|k: int| 0 <= k < plan@.len() && (#[trigger] plan@[k]).1 is None implies exists|a: int|
                        0 <= a < i + 1 && ents[a].0 == plan@[k].0 by {
                        if k < before.len() {
                            assert(plan@[k] == before[k]);
                            let a = choose|a: int| 0 <= a < i && ents[a].0 == before[k].0;
                        } else {
                            assert(ents[i as int].0 == plan@[k].0);
                        }
                    }
                    assert forall|a: int| 0 <= a < i && !ents[a].1 implies in_plan(plan@, (#[trigger] ents[a]).0) by {
                        lemma_in_plan_push(before, (r, None), ents[a].0);
                    }
                    assert forall|k: int| 0 <= k < plan@.len() && (#[trigger] plan@[k]).1 is Some implies popped.contains(
                        plan@[plan@[k].1->Some_0 as int].0,
                    ) by {
                        assert(k < before.len());
                        assert(plan@[k] == before[k]);
                        assert(plan@[before[k].1->Some_0 as int] == before[before[k].1->Some_0 as int]);
                    }
                    assert forall|q: EntityId, c: EntityId|
                        popped.contains(q) && #[trigger] child_of(chs, q, c) && has_local(ents, c) implies in_plan(plan@, c) by {
                        lemma_in_plan_push(before, (r, None), c);
                    }
                    lemma_entries_ok_push(ents, chs, before, (r, None));
                }
                while stack.len() > 0
                    invariant
                        ents == entities@,
                        chs == children@,
                        hierarchy_consistent(ents, chs),
                        i < ents.len(),
                        entries_ok(ents, chs, plan@),
                        forall|k: int|
                            0 <= k < plan@.len() && (#[trigger] plan@[k]).1 is None ==> exists|a: int|
                                0 <= a < i + 1 && ents[a].0 == plan@[k].0,
                        forall|a: int| 0 <= a < i && !ents[a].1 ==> in_plan(plan@, (#[trigger] ents[a]).0),
                        in_plan(plan@, r),
                        r == ents[i as int].0,
                        forall|s0: int| 0 <= s0 < stack@.len() ==> (#[trigger] stack@[s0]).1 < plan@.len() && plan@[stack@[s0].1 as int].0 == stack@[s0].0,
                        forall|s0: int| 0 <= s0 < stack@.len() ==> !popped.contains((#[trigger] stack@[s0]).0),
                        forall|s1: int, s2: int| 0 <= s1 < s2 < stack@.len() ==> stack@[s1].0 != stack@[s2].0,
                        forall|e: EntityId| in_plan(plan@, e) <==> (#[trigger] popped.contains(e) || on_stack(stack@, e)),
                        forall|k: int|
                            0 <= k < plan@.len() && (#[trigger] plan@[k]).1 is Some ==> popped.contains(
                                plan@[plan@[k].1->Some_0 as int].0,
                            ),
                        forall|q: EntityId, c: EntityId|
                            popped.contains(q) && #[trigger] child_of(chs, q, c) && has_local(ents, c) ==> in_plan(plan@, c),
                        unplanned(ents, plan@).finite(),
                    decreases unplanned(ents, plan@).len() * 2 + stack@.len(),
                {
                    let ghost m0 = unplanned(ents, plan@).len() * 2 + stack@.len();
                    let ghost st0 = stack@;
                    let (p, pidx) = match stack.pop() {
                        Some(top) => top,
                        None => {
                            proof {
                                assert(false);
                            }
                            (r, 0)
                        },
                    };
                    proof {
                        assert(st0 == stack@.push((p, pidx)));
                        assert(st0[st0.len() - 1] == (p, pidx));
                        assert(!on_stack(stack@, p)) by {
                            if on_stack(stack@, p) {
                                let s0 = choose|s0: int| 0 <= s0 < stack@.len() && (#[trigger] stack@[s0]).0 == p;
                                assert(st0[s0] == stack@[s0]);
                            }
                        }
                        assert forall|e: EntityId| on_stack(st0, e) <==> (on_stack(stack@, e) || e == p) by {
                            lemma_on_stack_push(stack@, (p, pidx), e);
                        }
                    }
                    match find_list(children, p) {
                        Some(li) => {
                            let mut t: usize = 0;
                            while t < children[li].1.len()
                                invariant
                                    ents == entities@,
                                    chs == children@,
                                    hierarchy_consistent(ents, chs),
                                    i < ents.len(),
                                    li < chs.len(),
                                    chs[li as int].0 == p,
                                    t <= chs[li as int].1@.len(),
                                    pidx < plan@.len(),
                                    plan@[pidx as int].0 == p,
                                    !popped.contains(p),
                                    !on_stack(stack@, p),
                                    entries_ok(ents, chs, plan@),
                                    forall|k: int|
                                        0 <= k < plan@.len() && (#[trigger] plan@[k]).1 is None ==> exists|a: int|
                                            0 <= a < i + 1 && ents[a].0 == plan@[k].0,
                                    forall|a: int| 0 <= a < i && !ents[a].1 ==> in_plan(plan@, (#[trigger] ents[a]).0),
                                    in_plan(plan@, r),
                                    r == ents[i as int].0,
                                    forall|s0: int| 0 <= s0 < stack@.len() ==> (#[trigger] stack@[s0]).1 < plan@.len() && plan@[stack@[s0].1 as int].0 == stack@[s0].0,
                                    forall|s0: int| 0 <= s0 < stack@.len() ==> !popped.contains((#[trigger] stack@[s0]).0),
                                    forall|s1: int, s2: int| 0 <= s1 < s2 < stack@.len() ==> stack@[s1].0 != stack@[s2].0,
                                    forall|e: EntityId| in_plan(plan@, e) <==> (#[trigger] popped.contains(e) || on_stack(stack@, e) || e == p),
                                    forall|k: int|
                                        0 <= k < plan@.len() && (#[trigger] plan@[k]).1 is Some ==> popped.contains(
                                            plan@[plan@[k].1->Some_0 as int].0,
                                        ) || (plan@[plan@[k].1->Some_0 as int].0 == p && exists|x: int|
                                            0 <= x < t && chs[li as int].1@[x] == plan@[k].0),
                                    forall|q: EntityId, c: EntityId|
                                        popped.contains(q) && #[trigger] child_of(chs, q, c) && has_local(ents, c) ==> in_plan(plan@, c),
                                    forall|x: int| 0 <= x < t && has_local(ents, chs[li as int].1@[x]) ==> in_plan(plan@, #[trigger] chs[li as int].1@[x]),
                                    unplanned(ents, plan@).finite(),
                                    unplanned(ents, plan@).len() * 2 + stack@.len() < m0,
                                decreases chs[li as int].1@.len() - t,
                            {
                                let c = children[li].1[t];
                                if local_exists(entities, c) {
                                    proof {
                                        let lst = chs[li as int].1@;
                                        assert(lst[t as int] == c);
                                        assert(lst.contains(c));
                                        if in_plan(plan@, c) {
                                            let k = choose|k: int| 0 <= k < plan@.len() && (#[trigger] plan@[k]).0 == c;
                                            if plan@[k].1 is None {
                                                assert(is_root(ents, c));
                                                assert(!chs[li as int].1@.contains(c));
                                            } else {
                                                let j = plan@[k].1->Some_0 as int;
                                                assert(child_of(chs, plan@[j].0, c));
                                                let i2 = choose|i2: int| 0 <= i2 < chs.len() && (#[trigger] chs[i2]).0 == plan@[j].0 && chs[i2].1@.contains(c);
                                                assert(chs[i2].1@.contains(c) && chs[li as int].1@.contains(c));
                                                assert(i2 == li);
                                                assert(plan@[j].0 == p);
                                                let x = choose|x: int| 0 <= x < t && chs[li as int].1@[x] == plan@[k].0;
                                                assert(lst[x] == lst[t as int]);
                                            }
                                        }
                                        lemma_unplanned_push(ents, plan@, (c, Some(pidx)));
                                    }
                                    let ghost before = plan@;
                                    let ghost sbefore = stack@;
                                    plan.push((c, Some(pidx)));
                                    stack.push((c, plan.len() - 1));
                                    proof {
                                        lemma_unplanned_finite(ents, plan@);
                                        assert(child_of(chs, p, c)) by {
                                            assert(chs[li as int].0 == p && chs[li as int].1@.contains(c));
                                        }
                                        assert(plan@[pidx as int] == before[pidx as int]);
                                        assert forall|e: EntityId| in_plan(plan@, e) <==> (popped.contains(e) || on_stack(stack@, e) || e == p) by {
                                            lemma_in_plan_push(before, (c, Some(pidx)), e);
                                            lemma_on_stack_push(sbefore, (c, (plan@.len() - 1) as usize), e);
                                        }
                                        assert(!on_stack(stack@, p)) by {
                                            lemma_on_stack_push(sbefore, (c, (plan@.len() - 1) as usize), p);
                                        }
                                        lemma_entries_ok_push(ents, chs, before, (c, Some(pidx)));
                                        assert forall|k: int| 0 <= k < plan@.len() && (#[trigger] plan@[k]).1 is None implies exists|a: int|
                                            0 <= a < i + 1 && ents[a].0 == plan@[k].0 by {
                                            assert(k < before.len());
                                            assert(plan@[k] == before[k]);
                                        }
                                        assert forall|a: int| 0 <= a < i && !ents[a].1 implies in_plan(plan@, (#[trigger] ents[a]).0) by {
                                            lemma_in_plan_push(before, (c, Some(pidx)), ents[a].0);
                                        }
                                        lemma_in_plan_push(before, (c, Some(pidx)), r);
                                        assert forall|s0: int| 0 <= s0 < stack@.len() implies (#[trigger] stack@[s0]).1 < plan@.len() && plan@[stack@[s0].1 as int].0 == stack@[s0].0 by {
                                            if s0 < sbefore.len() {
                                                assert(stack@[s0] == sbefore[s0]);
                                                assert(plan@[sbefore[s0].1 as int] == before[sbefore[s0].1 as int]);
                                            }
                                        }
                                        assert forall|s0: int| 0 <= s0 < stack@.len() implies !popped.contains((#[trigger] stack@[s0]).0) by {
                                            if s0 < sbefore.len() {
                                                assert(stack@[s0] == sbefore[s0]);
                                            }
                                        }
                                        assert forall|s1: int, s2: int| 0 <= s1 < s2 < stack@.len() implies stack@[s1].0 != stack@[s2].0 by {
                                            if s2 == sbefore.len() {
                                                assert(stack@[s1] == sbefore[s1]);
                                                assert(on_stack(sbefore, sbefore[s1].0));
                                            } else {
                                                assert(stack@[s1] == sbefore[s1] && stack@[s2] == sbefore[s2]);
                                            }
                                        }
                                        assert forall|k: int| 0 <= k < plan@.len() && (#[trigger] plan@[k]).1 is Some implies popped.contains(
                                            plan@[plan@[k].1->Some_0 as int].0,
                                        ) || (plan@[plan@[k].1->Some_0 as int].0 == p && exists|x: int|
                                            0 <= x < t + 1 && chs[li as int].1@[x] == plan@[k].0) by {
                                            if k < before.len() {
                                                assert(plan@[k] == before[k]);
                                                let j = before[k].1->Some_0 as int;
                                                assert(plan@[j] == before[j]);
                                                if !popped.contains(before[j].0) {
                                                    let x = choose|x: int| 0 <= x < t && chs[li as int].1@[x] == before[k].0;
                                                    assert(0 <= x < t + 1 && chs[li as int].1@[x] == plan@[k].0);
                                                }
                                            } else {
                                                assert(chs[li as int].1@[t as int] == plan@[k].0);
                                            }
                                        }
                                        assert forall|q: EntityId, c2: EntityId|
                                            popped.contains(q) && #[trigger] child_of(chs, q, c2) && has_local(ents, c2) implies in_plan(plan@, c2) by {
                                            lemma_in_plan_push(before, (c, Some(pidx)), c2);
                                        }
                                        assert forall|x: int| 0 <= x < t + 1 && has_local(ents, chs[li as int].1@[x]) implies in_plan(plan@, #[trigger] chs[li as int].1@[x]) by {
                                            lemma_in_plan_push(before, (c, Some(pidx)), chs[li as int].1@[x]);
                                        }
                                    }
                                } else {
                                    proof {
                                        assert forall|k: int| 0 <= k < plan@.len() && (#[trigger] plan@[k]).1 is Some implies popped.contains(
                                            plan@[plan@[k].1->Some_0 as int].0,
                                        ) || (plan@[plan@[k].1->Some_0 as int].0 == p && exists|x: int|
                                            0 <= x < t + 1 && chs[li as int].1@[x] == plan@[k].0) by {
                                            if !popped.contains(plan@[plan@[k].1->Some_0 as int].0) {
                                                let x = choose|x: int| 0 <= x < t && chs[li as int].1@[x] == plan@[k].0;
                                                assert(0 <= x < t + 1);
                                            }
                                        }
                                    }
                                }
                                t = t + 1;
                            }
                            proof {
                                assert forall|c2: EntityId| #[trigger] child_of(chs, p, c2) && has_local(ents, c2) implies in_plan(plan@, c2) by {
                                    let i2 = choose|i2: int| 0 <= i2 < chs.len() && (#[trigger] chs[i2]).0 == p && chs[i2].1@.contains(c2);
                                    if i2 != li {
                                        if i2 < li {
                                            assert(chs[i2].0 != chs[li as int].0);
                                        } else {
                                            assert(chs[li as int].0 != chs[i2].0);
                                        }
                                    }
                                    let x = choose|x: int| 0 <= x < chs[li as int].1@.len() && chs[li as int].1@[x] == c2;
                                    assert(in_plan(plan@, chs[li as int].1@[x]));
                                }
                            }
                        },
                        None => {
                            proof {
                                assert forall|c2: EntityId| !#[trigger] child_of(chs, p, c2) by {
                                    if child_of(chs, p, c2) {
                                        let i2 = choose|i2: int| 0 <= i2 < chs.len() && (#[trigger] chs[i2]).0 == p && chs[i2].1@.contains(c2);
                                    }
                                }
                            }
                        },
                    }
                    proof {
                        let old_popped = popped;
                        popped = popped.insert(p);
                        assert forall|e: EntityId| in_plan(plan@, e) <==> (#[trigger] popped.contains(e) || on_stack(stack@, e)) by {}
                        assert forall|s0: int| 0 <= s0 < stack@.len() implies !popped.contains((#[trigger] stack@[s0]).0) by {
                            assert(on_stack(stack@, stack@[s0].0));
                        }
                        assert forall|q: EntityId, c2: EntityId|
                            popped.contains(q) && #[trigger] child_of(chs, q, c2) && has_local(ents, c2) implies in_plan(plan@, c2) by {
                            if q != p {
                                assert(old_popped.contains(q));
                            }
                        }
                    }
                }
                proof {
                    assert forall|e: EntityId| #[trigger] popped.contains(e) <==> in_plan(plan@, e) by {
                        assert(in_plan(plan@, e) <==> (popped.contains(e) || on_stack(stack@, e)));
                        if on_stack(stack@, e) {
                            let s0 = choose|s0: int| 0 <= s0 < stack@.len() && (#[trigger] stack@[s0]).0 == e;
                        }
                    }
                }
            }
            i = i + 1;
        }
        proof {
            assert forall|e: EntityId| is_root(ents, e) implies in_plan(plan@, e) by {
                let k = choose|k: int| 0 <= k < ents.len() && (#[trigger] ents[k]).0 == e && !ents[k].1;
            }
            assert forall|j: int, c: EntityId|
                0 <= j < plan@.len() && #[trigger] child_of(chs, plan@[j].0, c) && has_local(ents, c) implies in_plan(plan@, c) by {
                assert(in_plan(plan@, plan@[j].0));
                assert(popped.contains(plan@[j].0));
            }
        }
        plan
    }
}

} // verus!
