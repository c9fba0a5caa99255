use vstd::prelude::*;

use crate::either::Either;
use crate::keys::Key;
use crate::Action;
use crate::Process;

verus! {

/// Whether a process may run when an event resumes it.
///
/// Every process starts `Active`. It becomes `Passivated` only by yielding
/// `Passivate`, and `Active` again only when a peer activates it.
#[derive(Debug, Clone, Copy, PartialEq, Eq, Structural)]
pub enum ComponentState {
    Passivated,
    Active,
}

/// The state recorded in a slot: the slot's state when it is occupied,
/// `None` when the slot is out of range or vacated.
pub open spec fn state_of_slot<P>(slot: Option<(P, ComponentState)>) -> Option<ComponentState> {
    match slot {
        Some(pc) => Some(pc.1),
        None => None,
    }
}

/// The state the container records under `key`.
pub open spec fn state_in<P>(
    slots: Seq<Option<(P, ComponentState)>>,
    key: Key,
) -> Option<ComponentState> {
    if key.id < slots.len() {
        state_of_slot(slots[key.id as int])
    } else {
        None
    }
}

/// How many slots currently hold a process.
pub open spec fn occupied_count<P>(slots: Seq<Option<(P, ComponentState)>>) -> nat
    decreases slots.len(),
{
    if slots.len() == 0 {
        0
    } else {
        occupied_count(slots.drop_last()) + (if slots.last() is Some {
            1nat
        } else {
            0nat
        })
    }
}

/// Owns the processes of a simulation, each under the key of its slot.
///
/// Slots are appended in registration order and never shifted: the key
/// handed out for the i-th registration is the index i, for the lifetime of
/// the container. Removal leaves a vacant slot behind, so no later
/// registration can collide with a key already handed out.
pub struct Container<P> {
    inner: Vec<Option<(P, ComponentState)>>,
}

impl<P> View for Container<P> {
    type V = Seq<Option<(P, ComponentState)>>;

    closed spec fn view(&self) -> Seq<Option<(P, ComponentState)>> {
        self.inner@
    }
}

impl<P> Default for Container<P> {
    /// A container with no slots.
    fn default() -> (c: Self)
        ensures
            c@ == Seq::<Option<(P, ComponentState)>>::empty(),
    {
        Container { inner: Vec::new() }
    }
}

/// Neither registering nor removing a process touches any other slot, and
/// removal does not renumber: the key of registration i keeps naming slot i
/// (possibly vacated) for the container's whole lifetime, and is never
/// handed out again.
pub proof fn lemma_key_stability<P>(slots: Seq<Option<(P, ComponentState)>>, j: int, i: int)
    requires
        0 <= j < slots.len(),
        0 <= i < slots.len(),
        i != j,
    ensures
        slots.update(j, None::<(P, ComponentState)>).len() == slots.len(),
        slots.update(j, None::<(P, ComponentState)>)[i] == slots[i],
        forall|slot: Option<(P, ComponentState)>| (#[trigger] slots.push(slot))[i] == slots[i],
{
}

impl<P: Process> Container<P> {
    /// Appends a fresh slot holding `gen`, initially `Active`, and returns
    /// its key: the index of the new slot, one past every key handed out
    /// before.
    pub fn add_generator(&mut self, gen: P) -> (key: Key)
        ensures
            final(self)@ == old(self)@.push(Some((gen, ComponentState::Active))),
            key.id == old(self)@.len(),
    {
        let key = Key::new(self.inner.len());
        self.inner.push(Some((gen, ComponentState::Active)));
        key
    }

    /// Detaches and returns the process and state under `key`, leaving the
    /// slot vacant; `None` when the key is out of range (the slot, vacant or
    /// not, is cleared either way). No other slot moves or changes.
    pub fn remove(&mut self, key: Key) -> (r: Option<(P, ComponentState)>)
        ensures
            key.id < old(self)@.len() ==> r == old(self)@[key.id as int] && final(self)@ == old(
                self,
            )@.update(key.id as int, None::<(P, ComponentState)>),
            key.id >= old(self)@.len() ==> r == None::<(P, ComponentState)> && final(self)@ == old(
                self,
            )@,
    {
        if key.id < self.inner.len() {
            let slot = &mut self.inner[key.id];
            slot.take()
        } else {
            None
        }
    }

    /// Returns the number of processes resident in the container; vacated
    /// slots do not count.
    #[must_use]
    pub fn len(&self) -> (n: usize)
        ensures
            n == occupied_count(self@),
    {
        let mut n: usize = 0;
        let mut i: usize = 0;
        while i < self.inner.len()
            invariant
                i <= self@.len(),
                n == occupied_count(self@.subrange(0, i as int)),
                n <= i,
            decreases self@.len() - i,
        {
            proof {
                assert(self@.subrange(0, i + 1 as int).drop_last() =~= self@.subrange(0, i as int));
                assert(self@.subrange(0, i + 1 as int).last() == self@[i as int]);
            }
            if self.inner[i].is_some() {
                n = n + 1;
            }
            i = i + 1;
        }
        proof {
            assert(self@.subrange(0, self@.len() as int) =~= self@);
        }
        n
    }

    /// Returns `true` if no process is resident.
    #[must_use]
    pub fn is_empty(&self) -> (r: bool)
        ensures
            r == (occupied_count(self@) == 0),
    {
        self.len() == 0
    }

    /// Resumes the process under `key` with `resume_with`, and returns
    /// `Left` of the action it yielded, or `Right` when it completed. The
    /// slot must be occupied. Resuming touches no recorded state and no
    /// other slot; what the process yields is its own business, and the
    /// caller must handle every outcome.
    pub fn step_with(&mut self, key: Key, resume_with: P::Resume) -> (r: Either<Action, ()>)
        requires
            key.id < old(self)@.len(),
            old(self)@[key.id as int] is Some,
        ensures
            final(self)@.len() == old(self)@.len(),
            forall|i: int|
                0 <= i < old(self)@.len() && i != key.id ==> final(self)@[i] == old(self)@[i],
            state_in(final(self)@, key) == state_in(old(self)@, key),
            final(self)@[key.id as int] is Some,
    {
        let slot = &mut self.inner[key.id];
        match slot {
            Some(pair) => pair.0.resume(resume_with),
            None => unreached(),
        }
    }

    /// Reads the state recorded under `key`; `None` for a key that is out
    /// of range or whose slot was vacated.
    #[must_use]
    pub fn get_state(&self, key: Key) -> (r: Option<&ComponentState>)
        ensures
            match r {
                Some(s) => state_in(self@, key) == Some(*s),
                None => state_in(self@, key) is None,
            },
    {
        if key.id < self.inner.len() {
            match &self.inner[key.id] {
                Some(pair) => Some(&pair.1),
                None => None,
            }
        } else {
            None
        }
    }

    /// Borrows the state recorded under `key` for writing; `None` for a key
    /// that is out of range or whose slot was vacated. Whatever the caller
    /// writes through the borrow becomes the slot's state; nothing else
    /// changes.
    #[must_use]
    pub fn get_state_mut(&mut self, key: Key) -> (r: Option<&mut ComponentState>)
        ensures
            state_in(old(self)@, key) is None ==> r is None && final(self)@ == old(self)@,
            state_in(old(self)@, key) is Some ==> ({
                &&& r matches Some(s)
                &&& old(self)@[key.id as int] matches Some(pc)
                &&& *s == pc.1
                &&& final(self)@ == old(self)@.update(key.id as int, Some((pc.0, *final(s))))
            }),
    {
        if key.id < self.inner.len() {
            match &mut self.inner[key.id] {
                Some(pair) => Some(&mut pair.1),
                None => None,
            }
        } else {
            None
        }
    }
}

impl<P: Process<Resume = ()>> Container<P> {
    /// Resumes the process under `key` with the unit value.
    pub fn step(&mut self, key: Key) -> (r: Either<Action, ()>)
        requires
            key.id < old(self)@.len(),
            old(self)@[key.id as int] is Some,
        ensures
            final(self)@.len() == old(self)@.len(),
            forall|i: int|
                0 <= i < old(self)@.len() && i != key.id ==> final(self)@[i] == old(self)@[i],
            state_in(final(self)@, key) == state_in(old(self)@, key),
            final(self)@[key.id as int] is Some,
    {
        self.step_with(key, ())
    }
}

} // verus!
