//! Core of a discrete-event simulation engine.
//!
//! A simulation owns a set of suspendable *processes*, each addressed by a
//! stable [`Key`], and an event queue ordered by virtual time. The driver
//! pops the earliest event, advances the virtual clock to its time, resumes
//! the process it names, and interprets the [`Action`] the process yields:
//! sleep for a while, passivate indefinitely, or wake passivated peers.

use vstd::prelude::*;

pub mod container;
pub mod either;
pub mod keys;
pub mod scheduler;
pub mod simulation;

pub use container::ComponentState;
pub use container::Container;
pub use either::Either;
pub use keys::Key;
pub use scheduler::ClockRef;
pub use scheduler::EventEntry;
pub use scheduler::Scheduler;
pub use simulation::RunEnd;
pub use simulation::ShouldContinue;
pub use simulation::SimView;
pub use simulation::Simulation;
pub use simulation::Violation;

verus! {

/// A command yielded by a process when it suspends.
///
/// Every variant but `Passivate` causes the issuing process to be scheduled
/// again; `Passivate` stops it until a peer activates it.
#[derive(Debug, Clone)]
pub enum Action {
    /// Reschedule the issuing process `duration` time units into the future.
    Hold(u64),
    /// Stop the issuing process; do not reschedule it.
    Passivate,
    /// Wake one passivated peer now; the issuing process also continues now.
    ActivateOne(Key),
    /// Wake a list of passivated peers now, in list order; the issuing
    /// process also continues now, before them.
    ActivateMany(Vec<Key>),
}

impl Action {
    /// Builds the command that wakes a single peer.
    #[inline]
    pub fn activate_one(key: Key) -> (a: Self)
        ensures
            a == Action::ActivateOne(key),
    {
        Action::ActivateOne(key)
    }

    /// Builds the command that wakes a list of peers.
    #[inline]
    pub fn activate_many(keys: Vec<Key>) -> (a: Self)
        ensures
            a == Action::ActivateMany(keys),
    {
        Action::ActivateMany(keys)
    }
}

/// A suspendable computation owned by a simulation.
///
/// Each call to `resume` hands the process one value of its resume type and
/// runs it to its next suspension point: `Left(action)` when it yielded a
/// command, `Right(())` when it returned. The simulation core assumes nothing
/// about what a process yields; every outcome is handled by the driver.
pub trait Process {
    /// The type of the value a process consumes at each resumption.
    type Resume;

    /// Runs the process up to its next yield or to completion.
    fn resume(&mut self, resume_with: Self::Resume) -> Either<Action, ()>;
}

} // verus!
