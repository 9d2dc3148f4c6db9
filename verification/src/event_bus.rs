//! Publish/subscribe event bus: events are queued by type and handed to the
//! subscribers of their type, then to the subscribers of every type.

use crate::error::{EcsError, Result};
use crate::system::{type_id_eq, type_id_of};
use std::any::TypeId;
use vstd::prelude::*;

verus! {

/// Trait for any event type in the global event bus
pub trait Event: Send + Sync + 'static {
    /// Get the TypeId of this event
    fn event_type_id(&self) -> TypeId;

    /// Event name for debugging
    fn event_name(&self) -> &str {
        "UnnamedEvent"
    }

    /// Validate event data (e.g. non-negative damage)
    fn validate(&self) -> Result<()> {
        Ok(())
    }
}

/// Subscriber that listens for events
pub trait EventSubscriber: Send + Sync {
    /// Called when an event is published
    fn on_event(&mut self, event: &dyn Event) -> Result<()>;

    /// Get subscriber name for debugging
    fn name(&self) -> &str {
        "UnnamedSubscriber"
    }

    /// Check if this subscriber can handle the event
    fn can_handle(&self, _event_type: TypeId) -> bool {
        true
    }
}

/// A key and a count: the number of events queued for an event type, or
/// the number of subscribers registered for it.
pub type TypeCount = (TypeId, nat);

/// No key occurs twice.
pub open spec fn keys_distinct(s: Seq<TypeCount>) -> bool {
    forall|i: int, j: int| 0 <= i < j < s.len() ==> s[i].0 != s[j].0
}

/// The count recorded for `k`, or 0 where `k` has no entry.
pub open spec fn count_for(s: Seq<TypeCount>, k: TypeId) -> nat
    decreases s.len(),
{
    if s.len() == 0 {
        0
    } else if s.last().0 == k {
        s.last().1
    } else {
        count_for(s.drop_last(), k)
    }
}

/// Sum of all counts.
pub open spec fn total(s: Seq<TypeCount>) -> nat
    decreases s.len(),
{
    if s.len() == 0 {
        0
    } else {
        total(s.drop_last()) + s.last().1
    }
}

proof fn lemma_count_update(s: Seq<TypeCount>, i: int, n: nat)
    requires
        keys_distinct(s),
        0 <= i < s.len(),
    ensures
        keys_distinct(s.update(i, (s[i].0, n))),
        forall|k: TypeId| #[trigger] count_for(s.update(i, (s[i].0, n)), k) == if k == s[i].0 {
            n
        } else {
            count_for(s, k)
        },
        total(s.update(i, (s[i].0, n))) + s[i].1 == total(s) + n,
    decreases s.len(),
{
    let u = s.update(i, (s[i].0, n));
    assert forall|a: int, b: int| 0 <= a < b < u.len() implies u[a].0 != u[b].0 by {
        assert(u[a].0 == s[a].0 && u[b].0 == s[b].0);
    }
    if i == s.len() - 1 {
        assert(u.drop_last() =~= s.drop_last());
        assert forall|k: TypeId| #[trigger] count_for(u, k) == if k == s[i].0 {
            n
        } else {
            count_for(s, k)
        } by {}
    } else {
        let p = s.drop_last();
        assert(u.drop_last() =~= p.update(i, (s[i].0, n)));
        assert(keys_distinct(p));
        lemma_count_update(p, i, n);
        assert(s.last().0 != s[i].0);
        assert forall|k: TypeId| #[trigger] count_for(u, k) == if k == s[i].0 {
            n
        } else {
            count_for(s, k)
        } by {
            assert(u.last() == s.last());
            assert(p[i] == s[i]);
            assert(count_for(p.update(i, (p[i].0, n)), k) == if k == p[i].0 {
                n
            } else {
                count_for(p, k)
            });
            assert(u.drop_last() == p.update(i, (p[i].0, n)));
        }
        assert(u.last() == s.last());
        assert(p[i] == s[i]);
        assert(u.drop_last() == p.update(i, (p[i].0, n)));
    }
}

proof fn lemma_count_push(s: Seq<TypeCount>, k0: TypeId, n: nat)
    requires
        keys_distinct(s),
        forall|i: int| 0 <= i < s.len() ==> s[i].0 != k0,
    ensures
        keys_distinct(s.push((k0, n))),
        forall|k: TypeId| #[trigger] count_for(s.push((k0, n)), k) == if k == k0 {
            n
        } else {
            count_for(s, k)
        },
        total(s.push((k0, n))) == total(s) + n,
{
    let u = s.push((k0, n));
    assert(u.drop_last() =~= s);
    assert forall|a: int, b: int| 0 <= a < b < u.len() implies u[a].0 != u[b].0 by {
        if b == s.len() {
            assert(u[a] == s[a]);
        } else {
            assert(u[a] == s[a] && u[b] == s[b]);
        }
    }
}

proof fn lemma_count_found(s: Seq<TypeCount>, i: int)
    requires
        keys_distinct(s),
        0 <= i < s.len(),
    ensures
        count_for(s, s[i].0) == s[i].1,
    decreases s.len(),
{
    if i < s.len() - 1 {
        assert(s.drop_last()[i] == s[i]);
        lemma_count_found(s.drop_last(), i);
    }
}

proof fn lemma_count_absent(s: Seq<TypeCount>, k: TypeId)
    requires
        forall|i: int| 0 <= i < s.len() ==> s[i].0 != k,
    ensures
        count_for(s, k) == 0,
    decreases s.len(),
{
    if s.len() > 0 {
        lemma_count_absent(s.drop_last(), k);
    }
}

proof fn lemma_total_zero(s: Seq<TypeCount>)
    requires
        total(s) == 0,
    ensures
        forall|i: int| 0 <= i < s.len() ==> s[i].1 == 0,
    decreases s.len(),
{
    if s.len() > 0 {
        lemma_total_zero(s.drop_last());
        assert forall|i: int| 0 <= i < s.len() implies s[i].1 == 0 by {
            if i < s.len() - 1 {
                assert(s.drop_last()[i] == s[i]);
            }
        }
    }
}

proof fn lemma_total_prefix(s: Seq<TypeCount>, q: int)
    requires
        0 <= q <= s.len(),
    ensures
        total(s.take(q)) <= total(s),
        q < s.len() ==> total(s.take(q + 1)) == total(s.take(q)) + s[q].1,
    decreases s.len(),
{
    if q < s.len() {
        assert(s.take(q + 1).drop_last() =~= s.take(q));
        lemma_total_prefix(s.drop_last(), q);
        assert(s.drop_last().take(q) =~= s.take(q));
    } else {
        assert(s.take(q) =~= s);
    }
}

/// One queued event.
struct QueuedEvent {
    event: Box<dyn Event>,
}

/// One registered subscriber.
struct SubscriberEntry {
    subscriber: Box<dyn EventSubscriber>,
}

/// Box an event for its queue.
fn queued<E: Event>(event: E) -> QueuedEvent {
    QueuedEvent { event: Box::new(event) }
}

/// Wrap an already boxed event for its queue.
fn queued_boxed(event: Box<dyn Event>) -> QueuedEvent {
    QueuedEvent { event }
}

/// Wrap a subscriber for its list.
fn subscriber_entry(subscriber: Box<dyn EventSubscriber>) -> SubscriberEntry {
    SubscriberEntry { subscriber }
}

/// Storage for the events of one type.
struct TypedEventQueue {
    type_id: TypeId,
    events: Vec<QueuedEvent>,
}

/// The subscribers registered for one event type.
struct SubscriberList {
    type_id: TypeId,
    subscribers: Vec<SubscriberEntry>,
}

/// Central event bus for pub/sub communication
pub struct EventBus {
    queues: Vec<TypedEventQueue>,
    subscribers: Vec<SubscriberList>,
    processed_count: u64,
    wildcard: TypeId,
    log: Ghost<Seq<Delivery>>,
    outcome_log: Ghost<Seq<Result<()>>>,
}

/// `new` is `old` with one more for `t`, and the same for every other key.
pub open spec fn added_one(old: Seq<TypeCount>, new: Seq<TypeCount>, t: TypeId) -> bool {
    &&& keys_distinct(new)
    &&& forall|k: TypeId| #[trigger] count_for(new, k) == count_for(old, k) + if k == t { 1nat } else { 0nat }
    &&& total(new) == total(old) + 1
}

/// Same keys in the same order, every count zero.
pub open spec fn drained(old: Seq<TypeCount>, new: Seq<TypeCount>) -> bool {
    &&& new.len() == old.len()
    &&& forall|i: int| 0 <= i < old.len() ==> (#[trigger] new[i]).0 == old[i].0 && new[i].1 == 0
}

/// One call of a subscriber's `on_event`: (queue, event in that queue,
/// subscriber list, subscriber in that list), each a position as it stood
/// when processing began.
pub type Delivery = (int, int, int, int);

/// Events `0..n` of queue `q`, each handed to subscribers `0..m` of list `l`
/// in turn.
pub open spec fn deliveries_for(q: int, n: nat, l: int, m: nat) -> Seq<Delivery>
    decreases n,
{
    if n == 0 {
        Seq::empty()
    } else {
        deliveries_for(q, (n - 1) as nat, l, m) + Seq::new(m, |j: int| (q, n - 1, l, j))
    }
}

/// Position of the subscriber list for `t`, if there is one.
pub open spec fn list_for(subs: Seq<TypeCount>, t: TypeId) -> Option<int> {
    if exists|l: int| 0 <= l < subs.len() && subs[l].0 == t {
        Some(choose|l: int| 0 <= l < subs.len() && subs[l].0 == t)
    } else {
        None
    }
}

/// Every event of queue `q` handed to every subscriber of the list for `t`;
/// nothing where `t` has no list.
pub open spec fn stage_deliveries(queues: Seq<TypeCount>, subs: Seq<TypeCount>, q: int, t: TypeId) -> Seq<Delivery> {
    match list_for(subs, t) {
        Some(l) => deliveries_for(q, queues[q].1, l, subs[l].1),
        None => Seq::empty(),
    }
}

/// Queue `q` processed: its events go to the subscribers of their type, then
/// to the subscribers of every type.
pub open spec fn queue_deliveries(queues: Seq<TypeCount>, subs: Seq<TypeCount>, wildcard: TypeId, q: int) -> Seq<Delivery> {
    stage_deliveries(queues, subs, q, queues[q].0) + stage_deliveries(queues, subs, q, wildcard)
}

/// Queues `0..n` processed in order.
pub open spec fn all_deliveries(queues: Seq<TypeCount>, subs: Seq<TypeCount>, wildcard: TypeId, n: int) -> Seq<Delivery>
    decreases n,
{
    if n <= 0 {
        Seq::empty()
    } else {
        all_deliveries(queues, subs, wildcard, n - 1) + queue_deliveries(queues, subs, wildcard, n - 1)
    }
}

/// Every recorded call returned `Ok`.
pub open spec fn all_ok(s: Seq<Result<()>>) -> bool {
    forall|i: int| 0 <= i < s.len() ==> (#[trigger] s[i]) is Ok
}

/// The last recorded call returned `Err(e)`, and every one before it `Ok`.
pub open spec fn failed_last(s: Seq<Result<()>>, e: EcsError) -> bool {
    &&& s.len() > 0
    &&& s.last() == Err::<(), EcsError>(e)
    &&& all_ok(s.drop_last())
}

/// Processing stopped while handing out the events of queue `q`: the queues
/// before it were drained and counted, it and the later ones kept their
/// events, and the calls made are those for the queues before it followed
/// by some of those for queue `q`, up to and including the one that failed.
pub open spec fn stopped_in_queue(
    queues: Seq<TypeCount>,
    subs: Seq<TypeCount>,
    wildcard: TypeId,
    processed: u64,
    log: Seq<Delivery>,
    bus: EventBus,
    q: int,
) -> bool {
    let before = all_deliveries(queues, subs, wildcard, q);
    let after = bus.queue_view();
    &&& 0 <= q < queues.len()
    &&& after.len() == queues.len()
    &&& forall|i: int| 0 <= i < q ==> (#[trigger] after[i]) == (queues[i].0, 0nat)
    &&& forall|i: int| q <= i < queues.len() ==> (#[trigger] after[i]) == queues[i]
    &&& bus.processed() == processed + total(queues.take(q))
    &&& bus.deliveries().take((log.len() + before.len()) as int) == log + before
    &&& stopped_within(bus.deliveries().skip((log.len() + before.len()) as int), queue_deliveries(queues, subs, wildcard, q))
}

/// Appending calls that all returned `Ok` keeps every new call `Ok`.
proof fn lemma_outcomes_extend(start: Seq<Result<()>>, cur: Seq<Result<()>>, more: Seq<Result<()>>)
    requires
        start.len() <= cur.len(),
        cur.take(start.len() as int) == start,
        all_ok(cur.skip(start.len() as int)),
    ensures
        (cur + more).take(start.len() as int) == start,
        all_ok(more) ==> all_ok((cur + more).skip(start.len() as int)),
{
    assert((cur + more).take(start.len() as int) =~= cur.take(start.len() as int));
    let t = (cur + more).skip(start.len() as int);
    assert(t =~= cur.skip(start.len() as int) + more);
    if all_ok(more) {
        assert forall|i: int| 0 <= i < t.len() implies (#[trigger] t[i]) is Ok by {
            if i < cur.skip(start.len() as int).len() {
                assert(t[i] == cur.skip(start.len() as int)[i]);
            } else {
                assert(t[i] == more[i - cur.skip(start.len() as int).len()]);
            }
        }
    }
}

/// Appending calls whose last one failed makes that failure the last of the
/// new calls.
proof fn lemma_failed_extend(start: Seq<Result<()>>, cur: Seq<Result<()>>, more: Seq<Result<()>>, e: EcsError)
    requires
        start.len() <= cur.len(),
        cur.take(start.len() as int) == start,
        all_ok(cur.skip(start.len() as int)),
        failed_last(more, e),
    ensures
        failed_last((cur + more).skip(start.len() as int), e),
        !all_ok((cur + more).skip(start.len() as int)),
{
    let a = cur.skip(start.len() as int);
    let t = (cur + more).skip(start.len() as int);
    assert(t =~= a + more);
    assert(t.drop_last() =~= a + more.drop_last());
    assert forall|i: int| 0 <= i < t.drop_last().len() implies (#[trigger] t.drop_last()[i]) is Ok by {
        if i < a.len() {
            assert(t.drop_last()[i] == a[i]);
        } else {
            assert(t.drop_last()[i] == more.drop_last()[i - a.len()]);
        }
    }
    assert(t[t.len() - 1] == more.last());
}

/// `done` is the first `m` calls of `full`, for some `m` from 1 on: the
/// calls made up to and including one that failed.
pub open spec fn stopped_within(done: Seq<Delivery>, full: Seq<Delivery>) -> bool {
    exists|m: int| 0 < m <= full.len() && done == full.take(m)
}

proof fn lemma_deliveries_prefix(q: int, a: nat, b: nat, l: int, m: nat)
    requires
        a <= b,
    ensures
        deliveries_for(q, a, l, m).len() <= deliveries_for(q, b, l, m).len(),
        deliveries_for(q, b, l, m).take(deliveries_for(q, a, l, m).len() as int) == deliveries_for(q, a, l, m),
    decreases b,
{
    if a < b {
        lemma_deliveries_prefix(q, a, (b - 1) as nat, l, m);
        let p = deliveries_for(q, (b - 1) as nat, l, m);
        let d = deliveries_for(q, b, l, m);
        let x = deliveries_for(q, a, l, m);
        assert(d.take(x.len() as int) =~= p.take(x.len() as int));
    } else {
        let d = deliveries_for(q, b, l, m);
        assert(d.take(d.len() as int) =~= d);
    }
}

/// A stop within a prefix of `full` is a stop within `full`.
proof fn lemma_stopped_extends(done: Seq<Delivery>, part: Seq<Delivery>, full: Seq<Delivery>)
    requires
        stopped_within(done, part),
        part.len() <= full.len(),
        full.take(part.len() as int) == part,
    ensures
        stopped_within(done, full),
{
    let m = choose|m: int| 0 < m <= part.len() && done == part.take(m);
    assert(full.take(m) =~= part.take(m));
}

/// Stopping within the middle part of `a + b + c` stops within the whole.
proof fn lemma_stop_after(a: Seq<Delivery>, b: Seq<Delivery>, c: Seq<Delivery>, done: Seq<Delivery>)
    requires
        stopped_within(done, b),
    ensures
        stopped_within(a + done, a + b + c),
{
    let m = choose|m: int| 0 < m <= b.len() && done == b.take(m);
    assert((a + b + c).take(a.len() + m) =~= a + done);
}

/// The subscriber list found for `t` is the one the specification names.
proof fn lemma_list_found(subs: Seq<TypeCount>, t: TypeId, i: int)
    requires
        keys_distinct(subs),
        0 <= i < subs.len(),
        subs[i].0 == t,
    ensures
        list_for(subs, t) == Some(i),
{
    let l = choose|l: int| 0 <= l < subs.len() && subs[l].0 == t;
    if l != i {
        if l < i {
            assert(subs[l].0 != subs[i].0);
        } else {
            assert(subs[i].0 != subs[l].0);
        }
    }
}

/// Hand every event of `queue` to every subscriber of `list`, event after
/// event, stopping at the first error. Also returns the calls made, as
/// deliveries from queue `q` to list `l`.
fn deliver(queue: &TypedEventQueue, list: &mut SubscriberList, Ghost(q): Ghost<int>, Ghost(l): Ghost<int>) -> (r: (
    Result<()>,
    Ghost<Seq<Delivery>>,
    Ghost<Seq<Result<()>>>,
))
    ensures
        r.2@.len() == r.1@.len(),
        r.0 is Ok ==> all_ok(r.2@),
        r.0 matches Err(e) ==> failed_last(r.2@, e),
        final(list).type_id == old(list).type_id,
        final(list).subscribers@.len() == old(list).subscribers@.len(),
        r.0 is Ok ==> r.1@ == deliveries_for(q, queue.events@.len(), l, old(list).subscribers@.len()),
        r.0 is Err ==> stopped_within(r.1@, deliveries_for(q, queue.events@.len(), l, old(list).subscribers@.len())),
        (old(list).subscribers@.len() == 0 || queue.events@.len() == 0) ==> r.0 is Ok,
{
    let ghost m: nat = old(list).subscribers@.len();
    let ghost n: nat = queue.events@.len();
    let ghost mut done: Seq<Delivery> = Seq::empty();
    let ghost mut outs: Seq<Result<()>> = Seq::empty();
    let mut k: usize = 0;
    while k < queue.events.len()
        invariant
            list.type_id == old(list).type_id,
            list.subscribers@.len() == m,
            m == old(list).subscribers@.len(),
            n == queue.events@.len(),
            k <= n,
            done == deliveries_for(q, k as nat, l, m),
            outs.len() == done.len(),
            all_ok(outs),
        decreases queue.events@.len() - k,
    {
        let mut j: usize = 0;
        while j < list.subscribers.len()
            invariant
                list.type_id == old(list).type_id,
                list.subscribers@.len() == m,
                m == old(list).subscribers@.len(),
                n == queue.events@.len(),
                k < n,
                j <= m,
                done == deliveries_for(q, k as nat, l, m) + Seq::new(j as nat, |x: int| (q, k as int, l, x)),
                outs.len() == done.len(),
                all_ok(outs),
            decreases list.subscribers@.len() - j,
        {
            let event: &dyn Event = &*queue.events[k].event;
            proof {
                let before = deliveries_for(q, k as nat, l, m);
                assert(before + Seq::new((j + 1) as nat, |x: int| (q, k as int, l, x)) =~= done.push((q, k as int, l, j as int)));
                done = done.push((q, k as int, l, j as int));
            }
            let res = list.subscribers[j].subscriber.on_event(event);
            let ghost outs_before = outs;
            proof {
                outs = outs.push(res);
                assert(outs.drop_last() =~= outs_before);
            }
            match res {
                Err(e) => {
                    proof {
                        let before = deliveries_for(q, k as nat, l, m);
                        let next = deliveries_for(q, (k + 1) as nat, l, m);
                        let full = deliveries_for(q, n, l, m);
                        assert(next == before + Seq::new(m, |x: int| (q, k as int, l, x)));
                        assert(next.take(before.len() + j + 1) =~= done);
                        assert(stopped_within(done, next));
                        lemma_deliveries_prefix(q, (k + 1) as nat, n, l, m);
                        lemma_stopped_extends(done, next, full);
                    }
                    return (Err(e), Ghost(done), Ghost(outs));
                },
                Ok(()) => {},
            }
            j = j + 1;
        }
        proof {
            assert(deliveries_for(q, (k + 1) as nat, l, m) =~= deliveries_for(q, k as nat, l, m) + Seq::new(
                m,
                |x: int| (q, k as int, l, x),
            ));
        }
        k = k + 1;
    }
    (Ok(()), Ghost(done), Ghost(outs))
}

impl EventBus {
    /// Each event type with a queue, and the number of events queued for it.
    pub closed spec fn queue_view(&self) -> Seq<TypeCount> {
        self.queues@.map_values(|q: TypedEventQueue| (q.type_id, q.events@.len()))
    }

    /// Each event type with a subscriber list, and the number of subscribers on it.
    pub closed spec fn subscriber_view(&self) -> Seq<TypeCount> {
        self.subscribers@.map_values(|l: SubscriberList| (l.type_id, l.subscribers@.len()))
    }

    /// Number of events processed so far.
    pub closed spec fn processed(&self) -> u64 {
        self.processed_count
    }

    /// The calls of `on_event` made so far, in order.
    pub closed spec fn deliveries(&self) -> Seq<Delivery> {
        self.log@
    }

    /// What each call of `on_event` returned, in the order of `deliveries`.
    pub closed spec fn outcomes(&self) -> Seq<Result<()>> {
        self.outcome_log@
    }

    /// The identifier under which subscribers of every type are registered.
    pub closed spec fn wildcard_type(&self) -> TypeId {
        self.wildcard
    }

    /// Each event type has at most one queue and one subscriber list.
    pub open spec fn wf(&self) -> bool {
        &&& keys_distinct(self.queue_view())
        &&& keys_distinct(self.subscriber_view())
        &&& self.outcomes().len() == self.deliveries().len()
    }

    /// Create new event bus. Subscribers of every type are kept under the
    /// identifier of the unit type, `TypeId::of::<()>()`.
    pub fn new() -> (bus: Self)
        ensures
            bus.wf(),
            bus.queue_view() == Seq::<TypeCount>::empty(),
            bus.subscriber_view() == Seq::<TypeCount>::empty(),
            bus.processed() == 0,
            bus.deliveries() == Seq::<Delivery>::empty(),
    {
        let bus = EventBus {
            queues: Vec::new(),
            subscribers: Vec::new(),
            processed_count: 0,
            wildcard: type_id_of::<()>(),
            log: Ghost(Seq::empty()),
            outcome_log: Ghost(Seq::empty()),
        };
        assert(bus.queue_view() =~= Seq::<TypeCount>::empty());
        assert(bus.subscriber_view() =~= Seq::<TypeCount>::empty());
        bus
    }

    fn find_queue(&self, event_type: &TypeId) -> (r: Option<usize>)
        ensures
            match r {
                Some(i) => i < self.queues@.len() && self.queues@[i as int].type_id == *event_type,
                None => forall|i: int| 0 <= i < self.queues@.len() ==> self.queues@[i].type_id != *event_type,
            },
    {
        let mut i: usize = 0;
        while i < self.queues.len()
            invariant
                i <= self.queues@.len(),
                forall|j: int| 0 <= j < i ==> self.queues@[j].type_id != *event_type,
            decreases self.queues@.len() - i,
        {
            if type_id_eq(&self.queues[i].type_id, event_type) {
                return Some(i);
            }
            i = i + 1;
        }
        None
    }

    fn find_subscribers(&self, event_type: &TypeId) -> (r: Option<usize>)
        ensures
            match r {
                Some(i) => i < self.subscribers@.len() && self.subscribers@[i as int].type_id == *event_type,
                None => forall|i: int| 0 <= i < self.subscribers@.len() ==> self.subscribers@[i].type_id != *event_type,
            },
    {
        let mut i: usize = 0;
        while i < self.subscribers.len()
            invariant
                i <= self.subscribers@.len(),
                forall|j: int| 0 <= j < i ==> self.subscribers@[j].type_id != *event_type,
            decreases self.subscribers@.len() - i,
        {
            if type_id_eq(&self.subscribers[i].type_id, event_type) {
                return Some(i);
            }
            i = i + 1;
        }
        None
    }

    fn push_queued(&mut self, event_type: TypeId, event: QueuedEvent)
        requires
            old(self).wf(),
        ensures
            final(self).wf(),
            added_one(old(self).queue_view(), final(self).queue_view(), event_type),
            final(self).subscriber_view() == old(self).subscriber_view(),
            final(self).processed() == old(self).processed(),
            final(self).deliveries() == old(self).deliveries(),
            final(self).outcomes() == old(self).outcomes(),
            final(self).wildcard_type() == old(self).wildcard_type(),
    {
        let ghost v0 = self.queue_view();
        match self.find_queue(&event_type) {
            Some(i) => {
                let mut queue = self.queues.remove(i);
                queue.events.push(event);
                self.queues.insert(i, queue);
                proof {
                    assert(v0[i as int] == (event_type, old(self).queues@[i as int].events@.len()));
                    assert(self.queue_view() =~= v0.update(i as int, (v0[i as int].0, v0[i as int].1 + 1)));
                    lemma_count_update(v0, i as int, v0[i as int].1 + 1);
                    lemma_count_found(v0, i as int);
                }
            },
            None => {
                let queue = TypedEventQueue { type_id: event_type, events: vec![event] };
                self.queues.push(queue);
                proof {
                    assert(self.queue_view() =~= v0.push((event_type, 1nat)));
                    lemma_count_push(v0, event_type, 1);
                    lemma_count_absent(v0, event_type);
                }
            },
        }
        assert(self.subscriber_view() =~= old(self).subscriber_view());
    }

    /// Queue an event under the event type with this identifier.
    pub fn publish_boxed(&mut self, event_type: TypeId, event: Box<dyn Event>)
        requires
            old(self).wf(),
        ensures
            final(self).wf(),
            added_one(old(self).queue_view(), final(self).queue_view(), event_type),
            final(self).subscriber_view() == old(self).subscriber_view(),
            final(self).processed() == old(self).processed(),
            final(self).deliveries() == old(self).deliveries(),
            final(self).outcomes() == old(self).outcomes(),
            final(self).wildcard_type() == old(self).wildcard_type(),
    {
        let q = queued_boxed(event);
        self.push_queued(event_type, q);
    }

    /// Subscribe to specific event type
    pub fn subscribe<E: Event + 'static>(&mut self, subscriber: Box<dyn EventSubscriber>)
        requires
            old(self).wf(),
        ensures
            final(self).wf(),
            exists|t: TypeId| added_one(old(self).subscriber_view(), final(self).subscriber_view(), t),
            final(self).queue_view() == old(self).queue_view(),
            final(self).processed() == old(self).processed(),
            final(self).deliveries() == old(self).deliveries(),
            final(self).outcomes() == old(self).outcomes(),
            final(self).wildcard_type() == old(self).wildcard_type(),
    {
        let type_id = type_id_of::<E>();
        self.subscribe_to_type(type_id, subscriber);
    }

    /// Subscribe to all event types (catches everything): the subscriber
    /// joins the list kept under the bus's wildcard identifier.
    pub fn subscribe_all(&mut self, subscriber: Box<dyn EventSubscriber>)
        requires
            old(self).wf(),
        ensures
            final(self).wf(),
            added_one(old(self).subscriber_view(), final(self).subscriber_view(), old(self).wildcard_type()),
            final(self).queue_view() == old(self).queue_view(),
            final(self).processed() == old(self).processed(),
            final(self).deliveries() == old(self).deliveries(),
            final(self).outcomes() == old(self).outcomes(),
            final(self).wildcard_type() == old(self).wildcard_type(),
    {
        let type_id = self.wildcard;
        self.subscribe_to_type(type_id, subscriber);
    }

    /// Publish concrete event: it is queued under its type. Never fails.
    pub fn publish_event<E: Event + 'static>(&mut self, event: E) -> (r: Result<()>)
        requires
            old(self).wf(),
        ensures
            r is Ok,
            final(self).wf(),
            exists|t: TypeId| added_one(old(self).queue_view(), final(self).queue_view(), t),
            final(self).subscriber_view() == old(self).subscriber_view(),
            final(self).processed() == old(self).processed(),
            final(self).deliveries() == old(self).deliveries(),
            final(self).outcomes() == old(self).outcomes(),
            final(self).wildcard_type() == old(self).wildcard_type(),
    {
        let type_id = type_id_of::<E>();
        let q = queued(event);
        self.push_queued(type_id, q);
        Ok(())
    }

    /// Process all queued events: queue after queue, every event goes to the
    /// subscribers of its type and then to those of every type, and the queue
    /// is emptied and counted as processed. The first error a subscriber
    /// returns stops the processing and is returned; the queue being handed
    /// out and those not yet reached keep their events uncounted. The result
    /// is `Ok` exactly when every call returned `Ok`.
    pub fn process_events(&mut self) -> (r: Result<()>)
        requires
            old(self).wf(),
            old(self).processed() + total(old(self).queue_view()) <= u64::MAX,
        ensures
            final(self).wf(),
            final(self).subscriber_view() == old(self).subscriber_view(),
            r is Ok ==> drained(old(self).queue_view(), final(self).queue_view()),
            r is Ok ==> final(self).processed() == old(self).processed() + total(old(self).queue_view()),
            r is Ok ==> final(self).deliveries() == old(self).deliveries() + all_deliveries(
                old(self).queue_view(),
                old(self).subscriber_view(),
                old(self).wildcard_type(),
                old(self).queue_view().len() as int,
            ),
            r is Err ==> exists|q: int|
                stopped_in_queue(
                    old(self).queue_view(),
                    old(self).subscriber_view(),
                    old(self).wildcard_type(),
                    old(self).processed(),
                    old(self).deliveries(),
                    *final(self),
                    q,
                ),
            final(self).outcomes().take(old(self).outcomes().len() as int) == old(self).outcomes(),
            r is Ok <==> all_ok(final(self).outcomes().skip(old(self).outcomes().len() as int)),
            r matches Err(e) ==> failed_last(final(self).outcomes().skip(old(self).outcomes().len() as int), e),
            total(old(self).subscriber_view()) == 0 || total(old(self).queue_view()) == 0 ==> r is Ok,
            final(self).wildcard_type() == old(self).wildcard_type(),
    {
        let ghost qv0 = self.queue_view();
        let ghost log0 = self.log@;
        let ghost outs0 = self.outcome_log@;
        let ghost w = self.wildcard;
        let ghost sv0 = self.subscriber_view();
        proof {
            if total(sv0) == 0 {
                lemma_total_zero(sv0);
            }
            if total(qv0) == 0 {
                lemma_total_zero(qv0);
            }
            assert(qv0.take(0) =~= Seq::<TypeCount>::empty());
            assert(outs0.take(outs0.len() as int) =~= outs0);
            assert(all_ok(outs0.skip(outs0.len() as int)));
        }
        let wildcard_type = self.wildcard;
        let mut q: usize = 0;
        while q < self.queues.len()
            invariant
                self.wf(),
                qv0 == old(self).queue_view(),
                sv0 == old(self).subscriber_view(),
                self.subscriber_view() == sv0,
                self.queue_view().len() == qv0.len(),
                self.queues@.len() == qv0.len(),
                q <= qv0.len(),
                forall|i: int| 0 <= i < q ==> (#[trigger] self.queue_view()[i]) == (qv0[i].0, 0nat),
                forall|i: int| q <= i < qv0.len() ==> (#[trigger] self.queue_view()[i]) == qv0[i],
                self.processed() == old(self).processed() + total(qv0.take(q as int)),
                old(self).processed() + total(qv0) <= u64::MAX,
                total(sv0) == 0 ==> forall|i: int| 0 <= i < sv0.len() ==> sv0[i].1 == 0,
                total(qv0) == 0 ==> forall|i: int| 0 <= i < qv0.len() ==> qv0[i].1 == 0,
                wildcard_type == w,
                self.wildcard == w,
                w == old(self).wildcard,
                log0 == old(self).log@,
                self.log@ == log0 + all_deliveries(qv0, sv0, w, q as int),
                outs0 == old(self).outcome_log@,
                outs0.len() == log0.len(),
                self.outcome_log@.take(outs0.len() as int) == outs0,
                all_ok(self.outcome_log@.skip(outs0.len() as int)),
            decreases qv0.len() - q,
        {
            proof {
                lemma_total_prefix(qv0, q as int);
                assert(self.queue_view()[q as int] == qv0[q as int]);
            }
            let ghost own = stage_deliveries(qv0, sv0, q as int, qv0[q as int].0);
            let ghost wild = stage_deliveries(qv0, sv0, q as int, w);
            let ghost before = all_deliveries(qv0, sv0, w, q as int);
            proof {
                assert(all_deliveries(qv0, sv0, w, q + 1) =~= before + own + wild);
            }
            match self.find_subscribers(&self.queues[q].type_id) {
                Some(si) => {
                    let ghost l0 = self.subscribers@[si as int];
                    proof {
                        assert(sv0[si as int] == (l0.type_id, l0.subscribers@.len()));
                        lemma_list_found(sv0, qv0[q as int].0, si as int);
                    }
                    let ghost o0 = self.outcome_log@;
                    let (res, done, outs) = deliver(&self.queues[q], &mut self.subscribers[si], Ghost(q as int), Ghost(si as int));
                    self.log = Ghost(self.log@ + done@);
                    self.outcome_log = Ghost(self.outcome_log@ + outs@);
                    proof {
                        lemma_outcomes_extend(outs0, o0, outs@);
                    }
                    proof {
                        assert(self.subscriber_view() =~= sv0);
                    }
                    match res {
                        Err(e) => {
                            proof {
                                lemma_stop_after(Seq::empty(), own, wild, done@);
                                assert(Seq::<Delivery>::empty() + done@ =~= done@);
                                assert(Seq::<Delivery>::empty() + own + wild =~= own + wild);
                                assert(self.log@ =~= log0 + before + done@);
                                assert(self.log@.take((log0.len() + before.len()) as int) =~= log0 + before);
                                assert(self.log@.skip((log0.len() + before.len()) as int) =~= done@);
                                lemma_failed_extend(outs0, o0, outs@, e);
                                assert(stopped_in_queue(qv0, sv0, w, old(self).processed(), log0, *self, q as int));
                                assert(stopped_in_queue(
                                    old(self).queue_view(),
                                    old(self).subscriber_view(),
                                    old(self).wildcard_type(),
                                    old(self).processed(),
                                    old(self).deliveries(),
                                    *self,
                                    q as int,
                                ));
                            }
                            return Err(e);
                        },
                        Ok(()) => {},
                    }
                },
                None => {
                    proof {
                        assert(list_for(sv0, qv0[q as int].0) is None);
                        assert(own =~= Seq::<Delivery>::empty());
                        assert(self.log@ =~= log0 + before + own);
                    }
                },
            }
            proof {
                assert(self.log@ =~= log0 + before + own);
            }
            match self.find_subscribers(&wildcard_type) {
                Some(wi) => {
                    let ghost l0 = self.subscribers@[wi as int];
                    proof {
                        assert(sv0[wi as int] == (l0.type_id, l0.subscribers@.len()));
                        lemma_list_found(sv0, w, wi as int);
                    }
                    let ghost o0 = self.outcome_log@;
                    let (res, done, outs) = deliver(&self.queues[q], &mut self.subscribers[wi], Ghost(q as int), Ghost(wi as int));
                    self.log = Ghost(self.log@ + done@);
                    self.outcome_log = Ghost(self.outcome_log@ + outs@);
                    proof {
                        lemma_outcomes_extend(outs0, o0, outs@);
                    }
                    proof {
                        assert(self.subscriber_view() =~= sv0);
                    }
                    match res {
                        Err(e) => {
                            proof {
                                lemma_stop_after(own, wild, Seq::empty(), done@);
                                assert(own + wild + Seq::<Delivery>::empty() =~= own + wild);
                                assert(self.log@ =~= log0 + before + (own + done@));
                                assert(self.log@.take((log0.len() + before.len()) as int) =~= log0 + before);
                                assert(self.log@.skip((log0.len() + before.len()) as int) =~= own + done@);
                                lemma_failed_extend(outs0, o0, outs@, e);
                                assert(stopped_in_queue(qv0, sv0, w, old(self).processed(), log0, *self, q as int));
                                assert(stopped_in_queue(
                                    old(self).queue_view(),
                                    old(self).subscriber_view(),
                                    old(self).wildcard_type(),
                                    old(self).processed(),
                                    old(self).deliveries(),
                                    *self,
                                    q as int,
                                ));
                            }
                            return Err(e);
                        },
                        Ok(()) => {},
                    }
                },
                None => {
                    proof {
                        assert(list_for(sv0, w) is None);
                        assert(wild =~= Seq::<Delivery>::empty());
                        assert(self.log@ =~= log0 + before + own + wild);
                    }
                },
            }
            proof {
                assert(self.log@ =~= log0 + all_deliveries(qv0, sv0, w, q + 1));
            }
            let n = self.queues[q].events.len();
            proof {
                assert(self.queue_view()[q as int] == qv0[q as int]);
                assert(n == qv0[q as int].1);
                lemma_total_prefix(qv0, q + 1);
            }
            self.processed_count = self.processed_count + n as u64;
            let ghost qv1 = self.queue_view();
            self.queues[q].events.clear();
            proof {
                assert(self.queue_view() =~= qv1.update(q as int, (qv0[q as int].0, 0nat)));
                assert(self.subscriber_view() =~= sv0);
            }
            q = q + 1;
        }
        proof {
            assert(qv0.take(qv0.len() as int) =~= qv0);
        }
        Ok(())
    }

    /// Get number of queued events
    pub fn queue_size(&self) -> (r: usize)
        requires
            total(self.queue_view()) <= usize::MAX,
        ensures
            r == total(self.queue_view()),
    {
        let ghost v = self.queue_view();
        let mut sum: usize = 0;
        let mut i: usize = 0;
        proof {
            assert(v.take(0) =~= Seq::<TypeCount>::empty());
        }
        while i < self.queues.len()
            invariant
                v == self.queue_view(),
                v.len() == self.queues@.len(),
                i <= v.len(),
                sum == total(v.take(i as int)),
                total(v) <= usize::MAX,
            decreases v.len() - i,
        {
            proof {
                lemma_total_prefix(v, i as int);
                lemma_total_prefix(v, i + 1);
                assert(v[i as int].1 == self.queues@[i as int].events@.len());
            }
            sum = sum + self.queues[i].events.len();
            i = i + 1;
        }
        proof {
            assert(v.take(v.len() as int) =~= v);
        }
        sum
    }

    /// Get total processed events
    pub fn processed_count(&self) -> (r: u64)
        ensures
            r == self.processed(),
    {
        self.processed_count
    }

    /// Clear all queued events
    pub fn clear_queue(&mut self)
        requires
            old(self).wf(),
        ensures
            final(self).wf(),
            drained(old(self).queue_view(), final(self).queue_view()),
            final(self).subscriber_view() == old(self).subscriber_view(),
            final(self).processed() == old(self).processed(),
            final(self).deliveries() == old(self).deliveries(),
            final(self).outcomes() == old(self).outcomes(),
            final(self).wildcard_type() == old(self).wildcard_type(),
    {
        let ghost v0 = self.queue_view();
        let mut i: usize = 0;
        while i < self.queues.len()
            invariant
                v0 == old(self).queue_view(),
                self.subscriber_view() == old(self).subscriber_view(),
                self.log == old(self).log,
                self.outcome_log == old(self).outcome_log,
                self.wildcard == old(self).wildcard,
                self.processed() == old(self).processed(),
                self.queues@.len() == v0.len(),
                i <= v0.len(),
                forall|j: int| 0 <= j < i ==> (#[trigger] self.queue_view()[j]) == (v0[j].0, 0nat),
                forall|j: int| i <= j < v0.len() ==> (#[trigger] self.queue_view()[j]) == v0[j],
            decreases v0.len() - i,
        {
            let ghost v1 = self.queue_view();
            let ghost s1 = self.subscriber_view();
            self.queues[i].events.clear();
            proof {
                assert(v1[i as int] == v0[i as int]);
                assert(self.queue_view() =~= v1.update(i as int, (v0[i as int].0, 0nat)));
                assert(self.subscriber_view() =~= s1);
            }
            i = i + 1;
        }
        proof {
            assert forall|a: int, b: int| 0 <= a < b < self.queue_view().len() implies self.queue_view()[a].0
                != self.queue_view()[b].0 by {
                assert(self.queue_view()[a].0 == v0[a].0);
                assert(self.queue_view()[b].0 == v0[b].0);
            }
        }
    }

    /// Get subscriber count for event type
    pub fn subscriber_count(&self, event_type: TypeId) -> (r: usize)
        requires
            self.wf(),
        ensures
            r == count_for(self.subscriber_view(), event_type),
    {
        match self.find_subscribers(&event_type) {
            Some(i) => {
                proof {
                    lemma_count_found(self.subscriber_view(), i as int);
                }
                self.subscribers[i].subscribers.len()
            },
            None => {
                proof {
                    lemma_count_absent(self.subscriber_view(), event_type);
                }
                0
            },
        }
    }

    /// Get total subscriber count
    pub fn total_subscribers(&self) -> (r: usize)
        requires
            total(self.subscriber_view()) <= usize::MAX,
        ensures
            r == total(self.subscriber_view()),
    {
        let ghost v = self.subscriber_view();
        let mut sum: usize = 0;
        let mut i: usize = 0;
        proof {
            assert(v.take(0) =~= Seq::<TypeCount>::empty());
        }
        while i < self.subscribers.len()
            invariant
                v == self.subscriber_view(),
                v.len() == self.subscribers@.len(),
                i <= v.len(),
                sum == total(v.take(i as int)),
                total(v) <= usize::MAX,
            decreases v.len() - i,
        {
            proof {
                lemma_total_prefix(v, i as int);
                lemma_total_prefix(v, i + 1);
                assert(v[i as int].1 == self.subscribers@[i as int].subscribers@.len());
            }
            sum = sum + self.subscribers[i].subscribers.len();
            i = i + 1;
        }
        proof {
            assert(v.take(v.len() as int) =~= v);
        }
        sum
    }

    /// Remove all subscribers
    pub fn clear_subscribers(&mut self)
        requires
            old(self).wf(),
        ensures
            final(self).wf(),
            final(self).subscriber_view() == Seq::<TypeCount>::empty(),
            final(self).queue_view() == old(self).queue_view(),
            final(self).processed() == old(self).processed(),
            final(self).deliveries() == old(self).deliveries(),
            final(self).outcomes() == old(self).outcomes(),
            final(self).wildcard_type() == old(self).wildcard_type(),
    {
        self.subscribers.clear();
        assert(self.subscriber_view() =~= Seq::<TypeCount>::empty());
        assert(self.queue_view() =~= old(self).queue_view());
    }

    /// Subscribe to the events whose type has this identifier.
    pub fn subscribe_to_type(&mut self, event_type: TypeId, subscriber: Box<dyn EventSubscriber>)
        requires
            old(self).wf(),
        ensures
            final(self).wf(),
            added_one(old(self).subscriber_view(), final(self).subscriber_view(), event_type),
            final(self).queue_view() == old(self).queue_view(),
            final(self).processed() == old(self).processed(),
            final(self).deliveries() == old(self).deliveries(),
            final(self).outcomes() == old(self).outcomes(),
            final(self).wildcard_type() == old(self).wildcard_type(),
    {
        let entry = subscriber_entry(subscriber);
        let ghost v0 = self.subscriber_view();
        match self.find_subscribers(&event_type) {
            Some(i) => {
                let mut list = self.subscribers.remove(i);
                list.subscribers.push(entry);
                self.subscribers.insert(i, list);
                proof {
                    assert(v0[i as int] == (event_type, old(self).subscribers@[i as int].subscribers@.len()));
                    assert(self.subscriber_view() =~= v0.update(i as int, (v0[i as int].0, v0[i as int].1 + 1)));
                    lemma_count_update(v0, i as int, v0[i as int].1 + 1);
                    lemma_count_found(v0, i as int);
                }
            },
            None => {
                let list = SubscriberList { type_id: event_type, subscribers: vec![entry] };
                self.subscribers.push(list);
                proof {
                    assert(self.subscriber_view() =~= v0.push((event_type, 1nat)));
                    lemma_count_push(v0, event_type, 1);
                    lemma_count_absent(v0, event_type);
                }
            },
        }
        assert(self.queue_view() =~= old(self).queue_view());
    }
}

impl Default for EventBus {
    fn default() -> (bus: Self)
        ensures
            bus.wf(),
            bus.queue_view() == Seq::<TypeCount>::empty(),
            bus.subscriber_view() == Seq::<TypeCount>::empty(),
            bus.processed() == 0,
            bus.deliveries() == Seq::<Delivery>::empty(),
    {
        Self::new()
    }
}

/// After the queues are drained no event is queued: the queue size is zero.
pub proof fn lemma_drained_is_empty(old: Seq<TypeCount>, new: Seq<TypeCount>)
    requires
        drained(old, new),
    ensures
        total(new) == 0,
    decreases new.len(),
{
    if new.len() > 0 {
        let o = old.drop_last();
        let n = new.drop_last();
        assert forall|i: int| 0 <= i < o.len() implies (#[trigger] n[i]).0 == o[i].0 && n[i].1 == 0 by {
            assert(n[i] == new[i]);
            assert(o[i] == old[i]);
        }
        lemma_drained_is_empty(o, n);
        assert(new[new.len() - 1].1 == 0);
    }
}

} // verus!
