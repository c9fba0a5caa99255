use vstd::prelude::*;

use crate::keys::Key;

verus! {

/// Declares `core::cell::Cell` so that a shared clock cell can be held in a
/// field. Verus sees nothing of a cell's content; the scheduler keeps its own
/// verified copy of the clock and only publishes it through the cell.
#[verifier::external_type_specification]
#[verifier::external_body]
#[verifier::reject_recursive_types(T)]
pub struct ExCell<T: ?Sized>(core::cell::Cell<T>);

/// Relies on `core::cell::Cell::new`: wraps a value in a fresh cell.
pub assume_specification<T>[ core::cell::Cell::<T>::new ](value: T) -> (c: core::cell::Cell<T>);

/// Relies on `core::cell::Cell::get`: returns a copy of the cell's current
/// content. Nothing is claimed of the value; it depends on the mutation
/// history of the cell, which Verus does not track.
pub assume_specification<T: Copy>[ core::cell::Cell::<T>::get ](cell: &core::cell::Cell<T>) -> (r: T);

/// Relies on `core::cell::Cell::set`: replaces the cell's content. The new
/// content is observable through every handle that shares the cell.
pub assume_specification<T>[ core::cell::Cell::<T>::set ](cell: &core::cell::Cell<T>, value: T);

/// One pending resume: the process named by `component` is due at the
/// virtual time `time`.
///
/// Entries compare by `time` alone, and in reverse: an entry with an earlier
/// time compares *greater*, so that a max-ordered structure hands out the
/// earliest entry first. Queue order among equally-timed entries is not
/// decided here but positionally, first inserted first out.
#[derive(Clone, Copy, Debug)]
pub struct EventEntry {
    pub time: u64,
    pub component: Key,
}

impl EventEntry {
    /// Builds the entry that resumes `component` at the virtual time `time`.
    pub fn new(time: u64, component: Key) -> (e: Self)
        ensures
            e == (EventEntry { time, component }),
    {
        Self { time, component }
    }

    /// The key of the process this entry resumes.
    pub fn key(&self) -> (k: Key)
        ensures
            k == self.component,
    {
        self.component
    }
}

impl PartialEq for EventEntry {
    fn eq(&self, other: &Self) -> (r: bool) {
        self.time == other.time
    }
}

impl Eq for EventEntry {}

impl vstd::std_specs::cmp::PartialEqSpecImpl for EventEntry {
    open spec fn obeys_eq_spec() -> bool {
        true
    }

    open spec fn eq_spec(&self, other: &Self) -> bool {
        self.time == other.time
    }
}

impl PartialOrd for EventEntry {
    fn partial_cmp(&self, other: &Self) -> (r: Option<core::cmp::Ordering>) {
        if self.time == other.time {
            Some(core::cmp::Ordering::Equal)
        } else if self.time > other.time {
            Some(core::cmp::Ordering::Less)
        } else {
            Some(core::cmp::Ordering::Greater)
        }
    }
}

impl vstd::std_specs::cmp::PartialOrdSpecImpl for EventEntry {
    open spec fn obeys_partial_cmp_spec() -> bool {
        true
    }

    open spec fn partial_cmp_spec(&self, other: &Self) -> Option<core::cmp::Ordering> {
        if self.time == other.time {
            Some(core::cmp::Ordering::Equal)
        } else if self.time > other.time {
            Some(core::cmp::Ordering::Less)
        } else {
            Some(core::cmp::Ordering::Greater)
        }
    }
}

/// A read-only handle on a simulation's virtual clock.
///
/// The handle shares a cell with the scheduler that hands it out; the
/// scheduler writes each new clock value into the cell when it pops an
/// event, so the handle always shows the scheduler's current time.
#[derive(Clone, Debug)]
pub struct ClockRef {
    cell: std::rc::Rc<core::cell::Cell<u64>>,
}

impl ClockRef {
    /// Return the current simulation time.
    ///
    /// Relies on `core::cell::Cell::get`; what the cell holds is whatever the
    /// owning scheduler last stored, which Verus does not track through the
    /// shared cell. The scheduler's own `time` carries the verified value.
    #[must_use]
    pub fn time(&self) -> u64 {
        (*self.cell).get()
    }
}

/// The mathematical content of a scheduler: the pending entries in insertion
/// order, and the current virtual time.
#[verifier::ext_equal]
pub struct SchedulerView {
    pub events: Seq<EventEntry>,
    pub now: u64,
}

/// Saturating addition on virtual times: a delay that would pass the largest
/// representable time clamps there.
pub open spec fn sat_add(a: u64, b: u64) -> u64 {
    if a + b <= u64::MAX {
        (a + b) as u64
    } else {
        u64::MAX
    }
}

/// The index of the entry `pop` removes: the first entry holding the minimal
/// time, so that ties at one time break in insertion order.
pub open spec fn earliest_index(s: Seq<EventEntry>) -> int
    decreases s.len(),
{
    if s.len() <= 1 {
        0
    } else {
        let rest = 1 + earliest_index(s.subrange(1, s.len() as int));
        if s[0].time <= s[rest].time {
            0
        } else {
            rest
        }
    }
}

/// `earliest_index` names an in-range entry with the minimal time, and every
/// entry before it is strictly later: ties at the minimal time fall to the
/// first-inserted entry.
pub proof fn lemma_earliest_index_properties(s: Seq<EventEntry>)
    requires
        s.len() > 0,
    ensures
        0 <= earliest_index(s) < s.len(),
        forall|j: int| 0 <= j < s.len() ==> s[earliest_index(s)].time <= #[trigger] s[j].time,
        forall|j: int| 0 <= j < earliest_index(s) ==> #[trigger] s[j].time > s[earliest_index(s)].time,
    decreases s.len(),
{
    if s.len() > 1 {
        let sub = s.subrange(1, s.len() as int);
        lemma_earliest_index_properties(sub);
        assert forall|j: int| 1 <= j < s.len() implies sub[j - 1] == s[j] by {}
    }
}

/// An index that holds the minimal time, with every earlier entry strictly
/// later, is the one `earliest_index` names.
pub proof fn lemma_earliest_index_unique(s: Seq<EventEntry>, i: int)
    requires
        0 <= i < s.len(),
        forall|j: int| 0 <= j < s.len() ==> s[i].time <= #[trigger] s[j].time,
        forall|j: int| 0 <= j < i ==> #[trigger] s[j].time > s[i].time,
    ensures
        i == earliest_index(s),
    decreases s.len(),
{
    lemma_earliest_index_properties(s);
    if s.len() > 1 {
        let sub = s.subrange(1, s.len() as int);
        assert forall|j: int| 1 <= j < s.len() implies sub[j - 1] == s[j] by {}
        if i > 0 {
            lemma_earliest_index_unique(sub, i - 1);
        } else {
            if earliest_index(s) != 0 {
                let rest = 1 + earliest_index(sub);
                lemma_earliest_index_properties(sub);
                assert(s[0].time <= s[rest].time);
            }
        }
    }
}

/// For two pending entries at one virtual time, the later-inserted one is
/// never popped first: `earliest_index` cannot name an entry that has an
/// equally-timed predecessor. Since removal keeps the remaining entries in
/// their order, entries at equal times leave in insertion order.
pub proof fn lemma_fifo_tie_break(s: Seq<EventEntry>, i: int, j: int)
    requires
        0 <= i < j < s.len(),
        s[i].time == s[j].time,
    ensures
        earliest_index(s) != j,
{
    lemma_earliest_index_properties(s);
}

/// The time-ordered event queue, owner of the virtual clock.
///
/// Entries live in a vector in insertion order; `pop` removes the first
/// entry of minimal time and advances the clock to its time. The clock never
/// decreases: every pending entry is due at or after the current time, and
/// the clock moves only to a pending entry's time.
#[derive(Debug)]
pub struct Scheduler {
    events: Vec<EventEntry>,
    now: u64,
    clock: ClockRef,
}

impl View for Scheduler {
    type V = SchedulerView;

    closed spec fn view(&self) -> SchedulerView {
        SchedulerView { events: self.events@, now: self.now }
    }
}

impl Scheduler {
    /// Every pending entry is due at or after the current time; popping any
    /// of them can only move the clock forward.
    pub open spec fn wf(&self) -> bool {
        forall|i: int|
            0 <= i < self@.events.len() ==> #[trigger] self@.events[i].time >= self@.now
    }
}

impl Default for Scheduler {
    /// An empty queue with the clock at zero.
    fn default() -> (s: Self)
        ensures
            s.wf(),
            s@.events.len() == 0,
            s@.now == 0,
    {
        Scheduler {
            events: Vec::new(),
            now: 0,
            clock: ClockRef { cell: std::rc::Rc::new(core::cell::Cell::new(0u64)) },
        }
    }
}

impl Scheduler {
    /// Schedules `component` to be resumed at `self.time() + time`, clamped
    /// to the largest representable time. Insertion does not move the clock,
    /// and the new entry goes behind every pending one.
    pub fn schedule(&mut self, time: u64, component: Key)
        requires
            old(self).wf(),
        ensures
            final(self).wf(),
            final(self)@.now == old(self)@.now,
            final(self)@.events == old(self)@.events.push(
                EventEntry { time: sat_add(old(self)@.now, time), component },
            ),
    {
        let at = if time <= u64::MAX - self.now {
            self.now + time
        } else {
            u64::MAX
        };
        self.events.push(EventEntry { time: at, component });
        proof {
            assert forall|i: int| 0 <= i < self@.events.len() implies #[trigger] self@.events[i].time
                >= self@.now by {
                if i < old(self)@.events.len() {
                    assert(old(self)@.events[i].time >= old(self)@.now);
                }
            }
        }
    }

    /// Schedules `component` to be resumed at the current time, behind every
    /// pending entry: among entries at this time it runs last.
    pub fn schedule_now(&mut self, component: Key)
        requires
            old(self).wf(),
        ensures
            final(self).wf(),
            final(self)@.now == old(self)@.now,
            final(self)@.events == old(self)@.events.push(
                EventEntry { time: old(self)@.now, component },
            ),
    {
        self.schedule(0, component);
    }

    /// Returns the current simulation time.
    #[must_use]
    pub fn time(&self) -> (t: u64)
        ensures
            t == self@.now,
    {
        self.now
    }

    /// Hands out a read-only handle on the simulation clock, sharing the
    /// cell this scheduler publishes its time through.
    #[must_use]
    pub fn clock(&self) -> ClockRef {
        self.clock.clone()
    }

    /// Inserts a ready-made entry behind every pending one. An entry due
    /// before the current time is not accepted: popping it would turn the
    /// clock backwards.
    pub fn insert(&mut self, event: EventEntry)
        requires
            old(self).wf(),
            event.time >= old(self)@.now,
        ensures
            final(self).wf(),
            final(self)@.now == old(self)@.now,
            final(self)@.events == old(self)@.events.push(event),
    {
        self.events.push(event);
        proof {
            assert forall|i: int| 0 <= i < self@.events.len() implies #[trigger] self@.events[i].time
                >= self@.now by {
                if i < old(self)@.events.len() {
                    assert(old(self)@.events[i].time >= old(self)@.now);
                }
            }
        }
    }

    /// Removes and returns the next scheduled entry, or `None` when the
    /// queue is empty. Of the pending entries, the first one with the
    /// minimal time leaves, and the clock advances to its time; on an empty
    /// queue nothing changes. The clock never decreases.
    pub fn pop(&mut self) -> (r: Option<EventEntry>)
        requires
            old(self).wf(),
        ensures
            final(self).wf(),
            final(self)@.now >= old(self)@.now,
            old(self)@.events.len() == 0 ==> r == None::<EventEntry> && final(self)@ == old(self)@,
            old(self)@.events.len() > 0 ==> {
                let i = earliest_index(old(self)@.events);
                &&& r == Some(old(self)@.events[i])
                &&& final(self)@.events == old(self)@.events.remove(i)
                &&& final(self)@.now == old(self)@.events[i].time
            },
    {
        if self.events.len() == 0 {
            return None;
        }
        let ghost s = self@.events;
        let mut best: usize = 0;
        let mut i: usize = 1;
        while i < self.events.len()
            invariant
                self@.events == s,
                s.len() > 0,
                best < i,
                i <= s.len(),
                forall|j: int| 0 <= j < i ==> s[best as int].time <= #[trigger] s[j].time,
                forall|j: int| 0 <= j < best ==> #[trigger] s[j].time > s[best as int].time,
            decreases s.len() - i,
        {
            if self.events[i].time < self.events[best].time {
                best = i;
            }
            i += 1;
        }
        proof {
            lemma_earliest_index_unique(s, best as int);
        }
        let e = self.events.remove(best);
        self.now = e.time;
        (*self.clock.cell).set(self.now);
        Some(e)
    }
}

} // verus!
