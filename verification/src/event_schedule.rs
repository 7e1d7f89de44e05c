//! A schedule of membership events to inject at chosen steps.

use vstd::prelude::*;
use crate::event::Event;

verus! {

/// A schedule: for each listed step, the events to inject then. A step
/// appears at most once.
pub struct EventSchedule {
    pub schedule: Vec<(u64, Vec<Event>)>,
}

impl EventSchedule {
    /// Every step appears once.
    pub open spec fn wf(self) -> bool {
        forall|i: int, j: int|
            0 <= i < j < self.schedule@.len() ==> (#[trigger] self.schedule@[i]).0 != (
            #[trigger] self.schedule@[j]).0
    }

    /// A schedule with the given entries.
    pub fn new(schedule: Vec<(u64, Vec<Event>)>) -> (r: EventSchedule)
        ensures
            r.schedule == schedule,
    {
        EventSchedule { schedule }
    }

    /// A schedule with nothing in it.
    pub fn empty() -> (r: EventSchedule)
        ensures
            r.wf(),
            r.schedule@.len() == 0,
    {
        EventSchedule { schedule: Vec::new() }
    }

    /// The events to inject at the given step.
    pub fn get_events(&self, step: u64) -> (r: Vec<Event>)
        requires
            self.wf(),
        ensures
            forall|i: int|
                0 <= i < self.schedule@.len() && (#[trigger] self.schedule@[i]).0 == step
                    ==> r@ == self.schedule@[i].1@,
            (forall|i: int| 0 <= i < self.schedule@.len() ==> (#[trigger] self.schedule@[i]).0 != step)
                ==> r@.len() == 0,
    {
        let mut i: usize = 0;
        while i < self.schedule.len()
            invariant
                self.wf(),
                i <= self.schedule@.len(),
                forall|k: int| 0 <= k < i ==> (#[trigger] self.schedule@[k]).0 != step,
            decreases self.schedule@.len() - i,
        {
            if self.schedule[i].0 == step {
                let mut out: Vec<Event> = Vec::new();
                let evs = &self.schedule[i].1;
                let mut j: usize = 0;
                while j < evs.len()
                    invariant
                        self.wf(),
                        i < self.schedule@.len(),
                        self.schedule@[i as int].0 == step,
                        evs == &self.schedule@[i as int].1,
                        j <= evs@.len(),
                        out@ == evs@.take(j as int),
                    decreases evs@.len() - j,
                {
                    let e = evs[j];
                    out.push(e);
                    proof {
                        assert(out@ =~= evs@.take(j + 1 as int));
                    }
                    j = j + 1;
                }
                proof {
                    assert(evs@.take(evs@.len() as int) =~= evs@);
                    assert forall|k: int|
                        0 <= k < self.schedule@.len() && (#[trigger] self.schedule@[k]).0
                            == step implies out@ == self.schedule@[k].1@ by {
                        assert(k >= i);
                        if k > i {
                            assert(self.schedule@[i as int].0 != self.schedule@[k].0);
                        }
                    }
                }
                return out;
            }
            i = i + 1;
        }
        Vec::new()
    }

    /// The last scheduled step, or 0 when empty.
    pub fn last_step(&self) -> (r: u64)
        ensures
            forall|i: int| 0 <= i < self.schedule@.len() ==> (#[trigger] self.schedule@[i]).0 <= r,
    {
        let mut m: u64 = 0;
        let mut i: usize = 0;
        while i < self.schedule.len()
            invariant
                i <= self.schedule@.len(),
                forall|k: int| 0 <= k < i ==> (#[trigger] self.schedule@[k]).0 <= m,
            decreases self.schedule@.len() - i,
        {
            if self.schedule[i].0 > m {
                m = self.schedule[i].0;
            }
            i = i + 1;
        }
        m
    }
}

} // verus!
