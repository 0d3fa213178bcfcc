//! A delay queue: payloads come due at their deadlines, earliest first, and
//! in order of scheduling among equal deadlines.

use vstd::prelude::*;

verus! {

/// A payload and the time (in milliseconds) at which it comes due.
pub struct Unit<T> {
    pub deadline: u64,
    pub payload: T,
}

impl<T> Unit<T> {
    pub fn new(timestamp: u64, payload: T) -> (r: Unit<T>)
        ensures
            r.deadline == timestamp,
            r.payload == payload,
    {
        Unit { deadline: timestamp, payload }
    }

    /// Milliseconds from `now` until the unit comes due; 0 once it is due.
    pub fn since(&self, now: u64) -> (r: u64)
        ensures
            r == if self.deadline > now {
                self.deadline - now
            } else {
                0
            },
    {
        if self.deadline > now {
            self.deadline - now
        } else {
            0
        }
    }
}

/// Pending units, ordered by deadline.
pub struct Scheduler<T> {
    pub units: Vec<Unit<T>>,
}

/// Deadlines never decrease along the queue.
pub open spec fn ordered<T>(s: Seq<Unit<T>>) -> bool {
    forall|i: int, j: int| 0 <= i < j < s.len() ==> s[i].deadline <= s[j].deadline
}

/// Where a unit due at `d` goes: after the leading units due no later.
pub open spec fn slot<T>(s: Seq<Unit<T>>, d: int) -> int
    decreases s.len(),
{
    if s.len() > 0 && s[0].deadline <= d {
        1 + slot(s.drop_first(), d)
    } else {
        0
    }
}

impl<T> Scheduler<T> {
    pub open spec fn wf(&self) -> bool {
        ordered(self.units@)
    }

    pub fn new() -> (r: Scheduler<T>)
        ensures
            r.wf(),
            r.units@.len() == 0,
    {
        Scheduler { units: Vec::new() }
    }

    /// Schedules `payload` to come due `delay` milliseconds after `now`: it
    /// goes after every unit due no later, before every unit due later.
    pub fn schedule(&mut self, now: u64, delay: u64, payload: T)
        requires
            old(self).wf(),
            now + delay <= u64::MAX,
        ensures
            final(self).wf(),
            final(self).units@ == old(self).units@.insert(
                slot(old(self).units@, now + delay),
                Unit { deadline: (now + delay) as u64, payload },
            ),
    {
        let deadline = now + delay;
        let mut p: usize = 0;
        assert(self.units@.skip(0) =~= self.units@);
        while p < self.units.len() && self.units[p].deadline <= deadline
            invariant
                p <= self.units.len(),
                forall|i: int| 0 <= i < p ==> #[trigger] self.units@[i].deadline <= deadline,
                slot(self.units@, deadline as int) == p + slot(self.units@.skip(p as int), deadline as int),
            decreases self.units.len() - p,
        {
            assert(self.units@.skip(p as int).drop_first() =~= self.units@.skip(p as int + 1));
            p = p + 1;
        }
        let ghost before = self.units@;
        proof {
            assert forall|i: int| p <= i < before.len() implies #[trigger] before[i].deadline
                > deadline by {
                assert(before[p as int].deadline <= before[i].deadline);
            }
        }
        self.units.insert(p, Unit::new(deadline, payload));
        proof {
            let after = self.units@;
            assert forall|i: int, j: int| 0 <= i < j < after.len() implies after[i].deadline
                <= after[j].deadline by {
                if j < p {
                } else if j == p {
                } else if i < p {
                    assert(after[j] == before[j - 1]);
                } else if i == p {
                    assert(after[j] == before[j - 1]);
                } else {
                    assert(after[i] == before[i - 1]);
                    assert(after[j] == before[j - 1]);
                }
            }
        }
    }

    /// Milliseconds until the earliest unit comes due; `None` when nothing
    /// is pending.
    pub fn leeway(&self, now: u64) -> (r: Option<u64>)
        ensures
            match r {
                Some(d) => self.units@.len() > 0 && d == if self.units@[0].deadline > now {
                    self.units@[0].deadline - now
                } else {
                    0
                },
                None => self.units@.len() == 0,
            },
    {
        if self.units.len() == 0 {
            None
        } else {
            Some(self.units[0].since(now))
        }
    }

    /// Takes the earliest unit when it is due at `now`.
    pub fn pop_due(&mut self, now: u64) -> (r: Option<T>)
        requires
            old(self).wf(),
        ensures
            final(self).wf(),
            match r {
                Some(x) => {
                    &&& old(self).units@.len() > 0
                    &&& old(self).units@[0].deadline <= now
                    &&& x == old(self).units@[0].payload
                    &&& final(self).units@ == old(self).units@.drop_first()
                },
                None => {
                    &&& old(self).units@.len() == 0 || old(self).units@[0].deadline > now
                    &&& final(self).units@ == old(self).units@
                },
            },
    {
        if self.units.len() == 0 || self.units[0].deadline > now {
            return None;
        }
        let unit = self.units.remove(0);
        proof {
            let after = self.units@;
            assert forall|i: int, j: int| 0 <= i < j < after.len() implies after[i].deadline
                <= after[j].deadline by {
                assert(after[i] == old(self).units@[i + 1]);
                assert(after[j] == old(self).units@[j + 1]);
            }
            assert(after =~= old(self).units@.drop_first());
        }
        Some(unit.payload)
    }
}

} // verus!
