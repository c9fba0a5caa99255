use vstd::prelude::*;

verus! {

/// A compact, stable handle for a process registered with a simulation.
///
/// The `id` is the index of the slot that holds the process. Slots are
/// allocated in insertion order and never renumbered, so a `Key` keeps
/// identifying the same slot for the lifetime of the simulation, even
/// after the process it names has been removed.
#[derive(Clone, Copy, PartialEq, Eq, Hash, Debug, Structural)]
pub struct Key {
    pub id: usize,
}

impl Key {
    /// Wraps a slot index as a key.
    pub fn new(id: usize) -> (k: Key)
        ensures
            k.id == id,
    {
        Key { id }
    }

    /// Reads back the slot index this key stands for.
    pub fn id(&self) -> (i: usize)
        ensures
            i == self.id,
    {
        self.id
    }
}

} // verus!
