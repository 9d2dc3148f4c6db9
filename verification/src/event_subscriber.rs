//! Ready-made event subscribers.

use crate::error::Result;
use crate::event_bus::{Event, EventSubscriber};
use crate::system::type_id_eq;
use std::any::TypeId;
use vstd::prelude::*;

verus! {

/// Position of the first entry with key `t`, or the length where there is none.
pub open spec fn first_with(s: Seq<(TypeId, usize)>, t: TypeId) -> int
    decreases s.len(),
{
    if s.len() == 0 {
        0
    } else if s[0].0 == t {
        0
    } else {
        1 + first_with(s.drop_first(), t)
    }
}

proof fn lemma_first_with(s: Seq<(TypeId, usize)>, t: TypeId)
    ensures
        0 <= first_with(s, t) <= s.len(),
        first_with(s, t) < s.len() ==> s[first_with(s, t)].0 == t,
        forall|i: int| 0 <= i < first_with(s, t) ==> s[i].0 != t,
    decreases s.len(),
{
    if s.len() > 0 && s[0].0 != t {
        lemma_first_with(s.drop_first(), t);
        assert forall|i: int| 0 <= i < first_with(s, t) implies s[i].0 != t by {
            if i > 0 {
                assert(s[i] == s.drop_first()[i - 1]);
            }
        }
    }
}

/// `new` is `old` after counting one event of type `t`: the first entry for
/// `t` goes up by one (wrapping), or an entry `(t, 1)` is appended.
pub open spec fn counted_type(old: Seq<(TypeId, usize)>, new: Seq<(TypeId, usize)>, t: TypeId) -> bool {
    let i = first_with(old, t);
    if 0 <= i < old.len() {
        new == old.update(i, (t, vstd::wrapping::usize_specs::wrapping_add(old[i].1, 1)))
    } else {
        new == old.push((t, 1usize))
    }
}

/// Statistics subscriber that counts events
pub struct StatisticsSubscriber {
    pub event_count: usize,
    /// For each event type seen, the number of its events.
    pub event_types: Vec<(TypeId, usize)>,
}

impl StatisticsSubscriber {
    pub fn new() -> (s: Self)
        ensures
            s.event_count == 0,
            s.event_types@ == Seq::<(TypeId, usize)>::empty(),
    {
        StatisticsSubscriber { event_count: 0, event_types: Vec::new() }
    }

    pub fn reset(&mut self)
        ensures
            final(self).event_count == 0,
            final(self).event_types@ == Seq::<(TypeId, usize)>::empty(),
    {
        self.event_count = 0;
        self.event_types.clear();
    }

    /// Count one event of the type with this identifier (counters wrap on
    /// overflow).
    pub fn record_event(&mut self, event_type: TypeId)
        ensures
            final(self).event_count == vstd::wrapping::usize_specs::wrapping_add(old(self).event_count, 1),
            counted_type(old(self).event_types@, final(self).event_types@, event_type),
    {
        proof {
            lemma_first_with(self.event_types@, event_type);
        }
        self.event_count = self.event_count.wrapping_add(1);
        let mut i: usize = 0;
        while i < self.event_types.len()
            invariant
                self.event_types@ == old(self).event_types@,
                self.event_count == vstd::wrapping::usize_specs::wrapping_add(old(self).event_count, 1),
                i <= self.event_types@.len(),
                forall|j: int| 0 <= j < i ==> self.event_types@[j].0 != event_type,
            decreases self.event_types@.len() - i,
        {
            if type_id_eq(&self.event_types[i].0, &event_type) {
                proof {
                    let s0 = old(self).event_types@;
                    let f = first_with(s0, event_type);
                    lemma_first_with(s0, event_type);
                    if f < i {
                        assert(s0[f].0 != event_type);
                    }
                    if f > i {
                        assert(s0[i as int].0 != event_type);
                    }
                }
                let count = self.event_types[i].1;
                self.event_types.set(i, (event_type, count.wrapping_add(1)));
                return;
            }
            i = i + 1;
        }
        self.event_types.push((event_type, 1));
    }
}

impl EventSubscriber for StatisticsSubscriber {
    /// Count the event under the type identifier that the event reports.
    fn on_event(&mut self, event: &dyn Event) -> (r: Result<()>)
        ensures
            r is Ok,
            final(self).event_count == vstd::wrapping::usize_specs::wrapping_add(old(self).event_count, 1),
            exists|t: TypeId| counted_type(old(self).event_types@, final(self).event_types@, t),
    {
        let event_type = event.event_type_id();
        self.record_event(event_type);
        Ok(())
    }

    fn name(&self) -> (r: &str)
        ensures
            r@ == "StatisticsSubscriber"@,
    {
        "StatisticsSubscriber"
    }
}

impl Default for StatisticsSubscriber {
    fn default() -> (s: Self)
        ensures
            s.event_count == 0,
            s.event_types@ == Seq::<(TypeId, usize)>::empty(),
    {
        Self::new()
    }
}

} // verus!
