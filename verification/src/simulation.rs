use vstd::prelude::*;

use crate::container::state_in;
use crate::container::state_of_slot;
use crate::container::ComponentState;
use crate::container::Container;
use crate::either::Either;
use crate::keys::Key;
use crate::scheduler::earliest_index;
use crate::scheduler::sat_add;
use crate::scheduler::ClockRef;
use crate::scheduler::EventEntry;
use crate::scheduler::Scheduler;
use crate::Action;
use crate::Process;

verus! {

/// The driver's report after one iteration: whether another iteration can
/// still find work.
#[derive(Debug, Clone, Copy, PartialEq, Eq, Structural)]
pub enum ShouldContinue {
    Advance,
    Break,
}

/// Why a driver run returned: the queue drained, the virtual-time limit was
/// reached, or the step budget ran out first.
#[derive(Debug, Clone, Copy, PartialEq, Eq, Structural)]
pub enum RunEnd {
    Drained,
    LimitReached,
    StepBudget,
}

/// A breach of the driver protocol. Each variant names the offending key.
/// These are programming bugs of the registered processes, not runtime
/// conditions: a driver run stops at the first one.
#[derive(Debug, Clone, Copy, PartialEq, Eq, Structural)]
pub enum Violation {
    /// An event named a key with no resident process, or an `Activate`
    /// targeted one.
    MissingComponent(Key),
    /// A process whose recorded state is `Passivated` yielded `Hold`.
    HoldByPassivated(Key),
    /// A process whose recorded state is already `Passivated` yielded
    /// `Passivate`.
    PassivateOnPassivated(Key),
    /// A process whose recorded state is `Passivated` yielded an `Activate`.
    PassivatedEmittedCommand(Key),
    /// The target of an `Activate` is already `Active`.
    ActivateAlreadyActive(Key),
}

/// The mathematical content of a simulation: the pending events in insertion
/// order, the virtual time, and the recorded state of every slot.
#[verifier::ext_equal]
pub struct SimView {
    pub events: Seq<EventEntry>,
    pub now: u64,
    pub states: Seq<Option<ComponentState>>,
}

/// The state recorded under `key`: `None` when the key is out of range or
/// its slot was vacated.
pub open spec fn state_at(v: SimView, key: Key) -> Option<ComponentState> {
    if key.id < v.states.len() {
        v.states[key.id as int]
    } else {
        None
    }
}

/// Every pending event is due at or after the current time.
pub open spec fn wf_view(v: SimView) -> bool {
    forall|i: int| 0 <= i < v.events.len() ==> (#[trigger] v.events[i]).time >= v.now
}

/// The view after recording state `s` under `key`.
pub open spec fn with_state(v: SimView, key: Key, s: ComponentState) -> SimView {
    SimView { states: v.states.update(key.id as int, Some(s)), ..v }
}

/// The view after scheduling `key` at `delay` units past the current time,
/// behind every pending event.
pub open spec fn with_event(v: SimView, key: Key, delay: u64) -> SimView {
    SimView {
        events: v.events.push(EventEntry { time: sat_add(v.now, delay), component: key }),
        ..v
    }
}

/// The view after vacating the slot of `key`; out-of-range keys change
/// nothing.
pub open spec fn without_slot(v: SimView, key: Key) -> SimView {
    if key.id < v.states.len() {
        SimView { states: v.states.update(key.id as int, None), ..v }
    } else {
        v
    }
}

/// Wakes the listed peers in order: each must be `Passivated`; it is
/// recorded `Active` and scheduled at the current time, behind everything
/// scheduled so far. The first peer that is missing or already `Active`
/// stops the run with a violation, leaving the earlier wakes in place.
pub open spec fn activate_run(v: SimView, keys: Seq<Key>) -> (SimView, Option<Violation>)
    decreases keys.len(),
{
    if keys.len() == 0 {
        (v, None)
    } else {
        let k = keys[0];
        match state_at(v, k) {
            None => (v, Some(Violation::MissingComponent(k))),
            Some(ComponentState::Active) => (v, Some(Violation::ActivateAlreadyActive(k))),
            Some(ComponentState::Passivated) => activate_run(
                with_event(with_state(v, k, ComponentState::Active), k, 0),
                keys.drop_first(),
            ),
        }
    }
}

/// How the driver interprets the outcome of resuming the process under
/// `key`: the view afterwards, and the protocol violation if the outcome
/// breaks the protocol.
///
/// Completion vacates the slot. A command from a process recorded
/// `Passivated` is a violation and changes nothing. `Hold(d)` reschedules
/// the issuer `d` units ahead. `Passivate` records the issuer `Passivated`
/// and schedules nothing. Both `Activate` forms first reschedule the issuer
/// at the current time, then wake the targets in order, so that at this time
/// the issuer resumes before the targets, and the targets in list order.
pub open spec fn dispatch_effect(pre: SimView, key: Key, step: Either<Action, ()>) -> (
    SimView,
    Option<Violation>,
) {
    match step {
        Either::Right(_) => (without_slot(pre, key), None),
        Either::Left(action) => match state_at(pre, key) {
            None => (pre, Some(Violation::MissingComponent(key))),
            Some(ComponentState::Passivated) => match action {
                Action::Hold(_) => (pre, Some(Violation::HoldByPassivated(key))),
                Action::Passivate => (pre, Some(Violation::PassivateOnPassivated(key))),
                Action::ActivateOne(_) => (pre, Some(Violation::PassivatedEmittedCommand(key))),
                Action::ActivateMany(_) => (pre, Some(Violation::PassivatedEmittedCommand(key))),
            },
            Some(ComponentState::Active) => match action {
                Action::Hold(d) => (with_event(pre, key, d), None),
                Action::Passivate => (with_state(pre, key, ComponentState::Passivated), None),
                Action::ActivateOne(other) => activate_run(with_event(pre, key, 0), seq![other]),
                Action::ActivateMany(others) => activate_run(with_event(pre, key, 0), others@),
            },
        },
    }
}

/// One queue entry at time `t` for each listed key, in list order.
pub open spec fn entries_at(t: u64, keys: Seq<Key>) -> Seq<EventEntry> {
    Seq::new(keys.len(), |i: int| EventEntry { time: t, component: keys[i] })
}

/// What a successful activation run does: it touches neither the clock nor
/// the number of slots; it records every listed key `Active` and no other
/// state; and it appends one entry at the current time per key, in list
/// order, behind everything already pending.
pub proof fn lemma_activate_run(v: SimView, keys: Seq<Key>)
    requires
        activate_run(v, keys).1 is None,
    ensures
        activate_run(v, keys).0.now == v.now,
        activate_run(v, keys).0.states.len() == v.states.len(),
        activate_run(v, keys).0.events =~= v.events + entries_at(v.now, keys),
        forall|k: Key|
            state_at(activate_run(v, keys).0, k) == (if keys.contains(k) {
                Some(ComponentState::Active)
            } else {
                state_at(v, k)
            }),
    decreases keys.len(),
{
    if keys.len() == 0 {
        assert(activate_run(v, keys).0.events =~= v.events + entries_at(v.now, keys));
    } else {
        let k0 = keys[0];
        let rest = keys.drop_first();
        let v2 = with_event(with_state(v, k0, ComponentState::Active), k0, 0);
        assert(state_at(v, k0) == Some(ComponentState::Passivated));
        assert(sat_add(v.now, 0) == v.now);
        lemma_activate_run(v2, rest);
        assert forall|k: Key| keys.contains(k) == (k == k0 || rest.contains(k)) by {
            if keys.contains(k) {
                let i = choose|i: int| 0 <= i < keys.len() && keys[i] == k;
                if i > 0 {
                    assert(rest[i - 1] == k);
                }
            }
            if rest.contains(k) {
                let i = choose|i: int| 0 <= i < rest.len() && rest[i] == k;
                assert(keys[i + 1] == k);
            }
        }
        assert(activate_run(v, keys).0.events =~= v.events + entries_at(v.now, keys)) by {
            assert(v2.events =~= v.events.push(EventEntry { time: v.now, component: k0 }));
            assert(activate_run(v, keys).0.events =~= v2.events + entries_at(v.now, rest));
        }
    }
}

/// After a process yields `ActivateMany(others)` and the activation
/// succeeds, the queue has gained entries at the current time for the
/// issuer first, then each peer in list order, behind every pending entry.
/// Since ties at one time fall to the earlier entry (`lemma_fifo_tie_break`),
/// the resumes at this time that these entries cause come in exactly that
/// order: the issuer, then the peers as listed.
pub proof fn lemma_activation_ordering(pre: SimView, key: Key, others: Vec<Key>)
    requires
        dispatch_effect(pre, key, Either::Left(Action::ActivateMany(others))).1 is None,
    ensures
        ({
            let post = dispatch_effect(pre, key, Either::Left(Action::ActivateMany(others))).0;
            &&& post.now == pre.now
            &&& post.events =~= pre.events + entries_at(pre.now, seq![key] + others@)
        }),
{
    let v1 = with_event(pre, key, 0);
    assert(sat_add(pre.now, 0) == pre.now);
    lemma_activate_run(v1, others@);
    assert(dispatch_effect(pre, key, Either::Left(Action::ActivateMany(others))).0.events
        =~= pre.events + entries_at(pre.now, seq![key] + others@));
}

/// Whether this resume outcome wakes `k`: it is the target of an
/// `ActivateOne`, or listed in an `ActivateMany`.
pub open spec fn step_activates(step: Either<Action, ()>, k: Key) -> bool {
    match step {
        Either::Left(Action::ActivateOne(other)) => other == k,
        Either::Left(Action::ActivateMany(others)) => others@.contains(k),
        _ => false,
    }
}

/// After one successful dispatch for `key`, the state recorded under any
/// `k` is `Passivated` exactly when either `k` itself just yielded
/// `Passivate`, or `k` was recorded `Passivated` before and this dispatch
/// neither removed it (its own completion) nor woke it. Chained over the
/// driver's iterations: a process is passivated at a quiescent point exactly
/// when its last command was `Passivate` and no peer has since activated it.
pub proof fn lemma_passivation_state(pre: SimView, key: Key, step: Either<Action, ()>, k: Key)
    requires
        dispatch_effect(pre, key, step).1 is None,
    ensures
        ({
            let post = dispatch_effect(pre, key, step).0;
            state_at(post, k) == Some(ComponentState::Passivated) <==> ({
                ||| (k == key && step == Either::<Action, ()>::Left(Action::Passivate))
                ||| (state_at(pre, k) == Some(ComponentState::Passivated) && !(k == key
                    && step is Right) && !step_activates(step, k))
            })
        }),
{
    match step {
        Either::Right(_) => {},
        Either::Left(action) => {
            assert(state_at(pre, key) == Some(ComponentState::Active));
            match action {
                Action::Hold(_) => {},
                Action::Passivate => {},
                Action::ActivateOne(other) => {
                    let v1 = with_event(pre, key, 0);
                    lemma_activate_run(v1, seq![other]);
                    assert(seq![other].contains(k) == (other == k)) by {
                        if seq![other].contains(k) {
                            let i = choose|i: int| 0 <= i < 1 && seq![other][i] == k;
                            assert(seq![other][0] == other);
                        }
                        if other == k {
                            assert(seq![other][0] == k);
                        }
                    }
                },
                Action::ActivateMany(others) => {
                    let v1 = with_event(pre, key, 0);
                    lemma_activate_run(v1, others@);
                },
            }
        },
    }
}

/// The view after a run of dispatches, one per trace element: each element
/// is the key that was resumed and the outcome it answered with.
pub open spec fn dispatch_run(v: SimView, tr: Seq<(Key, Either<Action, ()>)>) -> SimView
    decreases tr.len(),
{
    if tr.len() == 0 {
        v
    } else {
        dispatch_run(dispatch_effect(v, tr[0].0, tr[0].1).0, tr.drop_first())
    }
}

/// Every dispatch in the run succeeds: no protocol violation surfaces.
pub open spec fn dispatch_run_ok(v: SimView, tr: Seq<(Key, Either<Action, ()>)>) -> bool
    decreases tr.len(),
{
    if tr.len() == 0 {
        true
    } else {
        &&& dispatch_effect(v, tr[0].0, tr[0].1).1 is None
        &&& dispatch_run_ok(dispatch_effect(v, tr[0].0, tr[0].1).0, tr.drop_first())
    }
}

/// Whether one dispatch ends a passivation of `k`: it wakes `k`, or it is
/// `k`'s own completion, which vacates the slot.
pub open spec fn clears_passivation(d: (Key, Either<Action, ()>), k: Key) -> bool {
    step_activates(d.1, k) || (d.0 == k && d.1 is Right)
}

/// Across any run of successful dispatches, a process is recorded
/// `Passivated` at the end exactly when its last command in the run was
/// `Passivate` and nothing since woke or removed it; or it was already
/// passivated at the start and nothing in the whole run woke or removed it.
pub proof fn lemma_state_invariant(v: SimView, tr: Seq<(Key, Either<Action, ()>)>, k: Key)
    requires
        dispatch_run_ok(v, tr),
    ensures
        state_at(dispatch_run(v, tr), k) == Some(ComponentState::Passivated) <==> ({
            ||| (state_at(v, k) == Some(ComponentState::Passivated) && (forall|j: int|
                0 <= j < tr.len() ==> !clears_passivation(#[trigger] tr[j], k)))
            ||| (exists|i: int|
                0 <= i < tr.len() && #[trigger] tr[i] == (
                    k,
                    Either::<Action, ()>::Left(Action::Passivate),
                ) && (forall|j: int| i < j < tr.len() ==> !clears_passivation(#[trigger] tr[j], k)))
        }),
    decreases tr.len(),
{
    if tr.len() > 0 {
        let d = tr[0];
        let v1 = dispatch_effect(v, d.0, d.1).0;
        let rest = tr.drop_first();
        lemma_passivation_state(v, d.0, d.1, k);
        lemma_state_invariant(v1, rest, k);
        assert forall|j: int| 0 <= j < rest.len() implies rest[j] == tr[j + 1] by {}
        let lhs = state_at(dispatch_run(v, tr), k) == Some(ComponentState::Passivated);
        let started = state_at(v, k) == Some(ComponentState::Passivated) && (forall|j: int|
            0 <= j < tr.len() ==> !clears_passivation(#[trigger] tr[j], k));
        let issued = exists|i: int|
            0 <= i < tr.len() && #[trigger] tr[i] == (
                k,
                Either::<Action, ()>::Left(Action::Passivate),
            ) && (forall|j: int| i < j < tr.len() ==> !clears_passivation(#[trigger] tr[j], k));
        let started1 = state_at(v1, k) == Some(ComponentState::Passivated) && (forall|j: int|
            0 <= j < rest.len() ==> !clears_passivation(#[trigger] rest[j], k));
        let issued1 = exists|i: int|
            0 <= i < rest.len() && #[trigger] rest[i] == (
                k,
                Either::<Action, ()>::Left(Action::Passivate),
            ) && (forall|j: int| i < j < rest.len() ==> !clears_passivation(#[trigger] rest[j], k));

        // From the end of the run back to its start.
        if lhs {
            if started1 {
                if d == (k, Either::<Action, ()>::Left(Action::Passivate)) {
                    assert(tr[0] == d);
                    assert forall|j: int|
                        0 < j < tr.len() implies !clears_passivation(#[trigger] tr[j], k) by {
                        assert(rest[j - 1] == tr[j]);
                    }
                    assert(issued);
                } else {
                    assert(state_at(v, k) == Some(ComponentState::Passivated) && !clears_passivation(
                        d,
                        k,
                    ));
                    assert forall|j: int|
                        0 <= j < tr.len() implies !clears_passivation(#[trigger] tr[j], k) by {
                        if j > 0 {
                            assert(rest[j - 1] == tr[j]);
                        }
                    }
                    assert(started);
                }
            } else {
                let i = choose|i: int|
                    0 <= i < rest.len() && #[trigger] rest[i] == (
                        k,
                        Either::<Action, ()>::Left(Action::Passivate),
                    ) && (forall|j: int|
                        i < j < rest.len() ==> !clears_passivation(#[trigger] rest[j], k));
                assert(tr[i + 1] == (k, Either::<Action, ()>::Left(Action::Passivate)));
                assert forall|j: int|
                    i + 1 < j < tr.len() implies !clears_passivation(#[trigger] tr[j], k) by {
                    assert(rest[j - 1] == tr[j]);
                }
                assert(issued);
            }
        }

        // From the start of the run forward to its end.
        if started {
            assert(!clears_passivation(tr[0], k));
            assert(state_at(v1, k) == Some(ComponentState::Passivated));
            assert forall|j: int|
                0 <= j < rest.len() implies !clears_passivation(#[trigger] rest[j], k) by {
                assert(rest[j] == tr[j + 1]);
            }
            assert(started1);
            assert(lhs);
        }
        if issued {
            let i = choose|i: int|
                0 <= i < tr.len() && #[trigger] tr[i] == (
                    k,
                    Either::<Action, ()>::Left(Action::Passivate),
                ) && (forall|j: int| i < j < tr.len() ==> !clears_passivation(#[trigger] tr[j], k));
            if i == 0 {
                assert(d == (k, Either::<Action, ()>::Left(Action::Passivate)));
                assert(state_at(v1, k) == Some(ComponentState::Passivated));
                assert forall|j: int|
                    0 <= j < rest.len() implies !clears_passivation(#[trigger] rest[j], k) by {
                    assert(rest[j] == tr[j + 1]);
                }
                assert(started1);
            } else {
                assert(rest[i - 1] == (k, Either::<Action, ()>::Left(Action::Passivate)));
                assert forall|j: int|
                    i - 1 < j < rest.len() implies !clears_passivation(#[trigger] rest[j], k) by {
                    assert(rest[j] == tr[j + 1]);
                }
                assert(issued1);
            }
            assert(lhs);
        }
    }
}

/// Where one driver iteration takes a view whose next event resumes `key`
/// and whose process answers `Hold(d)`: pop the earliest entry, then
/// dispatch the hold.
pub open spec fn hold_step(v: SimView, key: Key, d: u64) -> SimView {
    let e = v.events[earliest_index(v.events)];
    let mid = SimView {
        events: v.events.remove(earliest_index(v.events)),
        now: e.time,
        states: v.states,
    };
    dispatch_effect(mid, key, Either::Left(Action::Hold(d))).0
}

/// The view after a run of hold-only iterations, one per listed delay.
pub open spec fn hold_run(v: SimView, key: Key, ds: Seq<u64>) -> SimView
    decreases ds.len(),
{
    if ds.len() == 0 {
        v
    } else {
        hold_run(hold_step(v, key, ds[0]), key, ds.drop_first())
    }
}

/// Every iteration of the hold run dispatches without a violation.
pub open spec fn hold_run_ok(v: SimView, key: Key, ds: Seq<u64>) -> bool
    decreases ds.len(),
{
    if ds.len() == 0 {
        true
    } else {
        let e = v.events[earliest_index(v.events)];
        let mid = SimView {
            events: v.events.remove(earliest_index(v.events)),
            now: e.time,
            states: v.states,
        };
        &&& dispatch_effect(mid, key, Either::Left(Action::Hold(ds[0]))).1 is None
        &&& hold_run_ok(hold_step(v, key, ds[0]), key, ds.drop_first())
    }
}

/// The virtual times at which a process that yields `Hold(ds[0])`,
/// `Hold(ds[1])`, … is resumed, its first resume being due at `t0`: each
/// delay adds (saturating) to the time of the resume before it.
pub open spec fn resume_times(t0: u64, ds: Seq<u64>) -> Seq<u64>
    decreases ds.len(),
{
    if ds.len() == 0 {
        seq![t0]
    } else {
        seq![t0] + resume_times(sat_add(t0, ds[0]), ds.drop_first())
    }
}

/// `resume_times` lists one time per hold plus the final pending one, and
/// starts at `t0`.
pub proof fn lemma_resume_times_len(t0: u64, ds: Seq<u64>)
    ensures
        resume_times(t0, ds).len() == ds.len() + 1,
        resume_times(t0, ds)[0] == t0,
    decreases ds.len(),
{
    if ds.len() > 0 {
        lemma_resume_times_len(sat_add(t0, ds[0]), ds.drop_first());
    }
}

/// A process that only holds is resumed at the times `resume_times` lists:
/// starting from a view whose only pending event resumes `key` at `t0` with
/// `key` recorded `Active`, every iteration dispatches cleanly, the clock
/// after the last hold stands at the time of the last resume, and the one
/// pending event is due at the next listed time. Instantiated with each
/// prefix of `ds`, this places the i-th resume at `resume_times(t0, ds)[i]`.
pub proof fn lemma_hold_round_trip(v0: SimView, key: Key, t0: u64, ds: Seq<u64>)
    requires
        v0.events =~= seq![EventEntry { time: t0, component: key }],
        state_at(v0, key) == Some(ComponentState::Active),
    ensures
        hold_run_ok(v0, key, ds),
        ({
            let w = hold_run(v0, key, ds);
            &&& w.states == v0.states
            &&& w.events =~= seq![
                EventEntry { time: resume_times(t0, ds).last(), component: key },
            ]
            &&& w.now == (if ds.len() == 0 {
                v0.now
            } else {
                resume_times(t0, ds)[ds.len() - 1]
            })
        }),
    decreases ds.len(),
{
    lemma_resume_times_len(t0, ds);
    if ds.len() > 0 {
        let t1 = sat_add(t0, ds[0]);
        let v1 = hold_step(v0, key, ds[0]);
        assert(earliest_index(v0.events) == 0);
        assert(v1.events =~= seq![EventEntry { time: t1, component: key }]);
        assert(v1.now == t0);
        assert(v1.states == v0.states);
        lemma_hold_round_trip(v1, key, t1, ds.drop_first());
        lemma_resume_times_len(t1, ds.drop_first());
        assert(hold_run(v0, key, ds) == hold_run(v1, key, ds.drop_first()));
        if ds.len() == 1 {
            assert(hold_run(v1, key, ds.drop_first()) == v1);
            assert(resume_times(t0, ds)[0] == t0);
        } else {
            let prev = resume_times(t1, ds.drop_first());
            assert(resume_times(t0, ds)[ds.len() - 1] == prev[ds.len() - 2]);
        }
        assert(resume_times(t0, ds).last() == resume_times(t1, ds.drop_first()).last());
    }
}

/// What one driver iteration leaves behind once the popped process was
/// resumed and answered with `step`: the new view is the dispatch of `step`,
/// and the result reports the violation if the dispatch found one.
pub open spec fn resumed_outcome(
    mid: SimView,
    post: SimView,
    key: Key,
    r: Result<ShouldContinue, Violation>,
    step: Either<Action, ()>,
) -> bool {
    &&& post == dispatch_effect(mid, key, step).0
    &&& r == match dispatch_effect(mid, key, step).1 {
        None => Ok::<ShouldContinue, Violation>(ShouldContinue::Advance),
        Some(v) => Err::<ShouldContinue, Violation>(v),
    }
}

/// A simulation: one event queue with its clock, one container of
/// processes, and the driver that binds them.
pub struct Simulation<P> {
    scheduler: Scheduler,
    components: Container<P>,
}

impl<P> View for Simulation<P> {
    type V = SimView;

    closed spec fn view(&self) -> SimView {
        SimView {
            events: self.scheduler@.events,
            now: self.scheduler@.now,
            states: Seq::new(self.components@.len(), |i: int| state_of_slot(self.components@[i])),
        }
    }
}

impl<P> Simulation<P> {
    /// Every pending event is due at or after the current time, so the
    /// clock never runs backwards.
    pub open spec fn wf(&self) -> bool {
        wf_view(self@)
    }
}

/// The simulation is well-formed exactly when its scheduler is: the two
/// quantifiers range over the same entries.
proof fn wf_scheduler_bridge<P>(s: &Simulation<P>)
    ensures
        s.wf() == s.scheduler.wf(),
{
    if s.scheduler.wf() {
        assert forall|i: int| 0 <= i < s@.events.len() implies (#[trigger] s@.events[i]).time
            >= s@.now by {
            assert(s.scheduler@.events[i].time >= s.scheduler@.now);
        }
    }
    if s.wf() {
        assert forall|i: int|
            0 <= i < s.scheduler@.events.len() implies #[trigger] s.scheduler@.events[i].time
            >= s.scheduler@.now by {
            assert((s@.events[i]).time >= s@.now);
        }
    }
}

impl<P> Default for Simulation<P> {
    /// An empty simulation: no processes, no events, clock at zero.
    fn default() -> (s: Self)
        ensures
            s.wf(),
            s@.events.len() == 0,
            s@.now == 0,
            s@.states.len() == 0,
    {
        let s = Simulation { scheduler: Scheduler::default(), components: Container::default() };
        proof {
            assert(s@.states =~= Seq::<Option<ComponentState>>::empty());
        }
        s
    }
}

impl<P: Process> Simulation<P> {
    /// Registers a process and returns its fresh key; the new slot is
    /// recorded `Active` and nothing is scheduled for it yet.
    #[inline]
    pub fn add_generator(&mut self, gen: P) -> (key: Key)
        requires
            old(self).wf(),
        ensures
            final(self).wf(),
            key.id == old(self)@.states.len(),
            final(self)@.states == old(self)@.states.push(Some(ComponentState::Active)),
            final(self)@.events == old(self)@.events,
            final(self)@.now == old(self)@.now,
    {
        let key = self.components.add_generator(gen);
        proof {
            wf_scheduler_bridge(old(self));
            wf_scheduler_bridge(&*self);
            assert(final(self)@.states =~= old(self)@.states.push(Some(ComponentState::Active)));
        }
        key
    }

    /// Schedules the process under `component_key` to be resumed `time`
    /// units past the current time (clamped to the largest representable
    /// time), behind every pending event. The key is not validated here;
    /// a stale key surfaces as a violation when its event is dispatched.
    #[inline]
    pub fn schedule(&mut self, time: u64, component_key: Key)
        requires
            old(self).wf(),
        ensures
            final(self).wf(),
            final(self)@ == with_event(old(self)@, component_key, time),
    {
        proof {
            wf_scheduler_bridge(&*self);
        }
        self.scheduler.schedule(time, component_key);
        proof {
            wf_scheduler_bridge(&*self);
            assert(final(self)@ =~= with_event(old(self)@, component_key, time));
        }
    }

    /// Schedules the process under `component_key` at the current time,
    /// behind every pending event.
    #[inline]
    pub fn schedule_now(&mut self, component_key: Key)
        requires
            old(self).wf(),
        ensures
            final(self).wf(),
            final(self)@ == with_event(old(self)@, component_key, 0),
    {
        proof {
            wf_scheduler_bridge(&*self);
        }
        self.scheduler.schedule_now(component_key);
        proof {
            wf_scheduler_bridge(&*self);
            assert(sat_add(old(self)@.now, 0) == old(self)@.now);
            assert(final(self)@ =~= with_event(old(self)@, component_key, 0));
        }
    }

    /// Returns the current simulation time.
    #[must_use]
    #[inline]
    pub fn time(&self) -> (t: u64)
        ensures
            t == self@.now,
    {
        self.scheduler.time()
    }

    /// Hands out a read-only handle on the simulation clock.
    #[must_use]
    #[inline]
    pub fn clock(&self) -> ClockRef {
        self.scheduler.clock()
    }

    /// Reads the state recorded under `key`, paired with the key itself;
    /// `None` when no process is resident under it.
    #[must_use]
    pub fn get_component_state(&self, key: Key) -> (r: Option<(Key, ComponentState)>)
        ensures
            r == match state_at(self@, key) {
                Some(s) => Some((key, s)),
                None => None::<(Key, ComponentState)>,
            },
    {
        match self.components.get_state(key) {
            Some(s) => Some((key, *s)),
            None => None,
        }
    }

    /// Records state `s` under `key`, whose slot must be occupied.
    fn set_state(&mut self, key: Key, s: ComponentState)
        requires
            old(self).wf(),
            state_at(old(self)@, key) is Some,
        ensures
            final(self).wf(),
            final(self)@ == with_state(old(self)@, key, s),
    {
        match self.components.get_state_mut(key) {
            Some(st) => {
                *st = s;
            },
            None => unreached(),
        }
        proof {
            wf_scheduler_bridge(&*self);
            assert(final(self)@.states =~= old(self)@.states.update(key.id as int, Some(s)));
            assert(final(self)@ =~= with_state(old(self)@, key, s));
        }
    }

    /// Wakes `other`: a `Passivated` peer is recorded `Active` and scheduled
    /// at the current time; a missing or already `Active` one is the
    /// corresponding violation, and nothing changes.
    fn activate(&mut self, other: Key) -> (r: Result<(), Violation>)
        requires
            old(self).wf(),
        ensures
            final(self).wf(),
            match state_at(old(self)@, other) {
                None => r == Err::<(), Violation>(Violation::MissingComponent(other))
                    && final(self)@ == old(self)@,
                Some(ComponentState::Active) => r == Err::<(), Violation>(
                    Violation::ActivateAlreadyActive(other),
                ) && final(self)@ == old(self)@,
                Some(ComponentState::Passivated) => r == Ok::<(), Violation>(()) && final(self)@
                    == with_event(with_state(old(self)@, other, ComponentState::Active), other, 0),
            },
    {
        match self.get_component_state(other) {
            None => Err(Violation::MissingComponent(other)),
            Some((_, ComponentState::Active)) => Err(Violation::ActivateAlreadyActive(other)),
            Some((_, ComponentState::Passivated)) => {
                self.set_state(other, ComponentState::Active);
                self.schedule_now(other);
                proof {
                    assert(final(self)@ =~= with_event(
                        with_state(old(self)@, other, ComponentState::Active),
                        other,
                        0,
                    ));
                }
                Ok(())
            },
        }
    }

    /// Removes the process under `key` from the container; the slot is
    /// vacated, events and clock stay as they are.
    fn remove_slot(&mut self, key: Key)
        requires
            old(self).wf(),
        ensures
            final(self).wf(),
            final(self)@ == without_slot(old(self)@, key),
    {
        let _ = self.components.remove(key);
        proof {
            wf_scheduler_bridge(old(self));
            wf_scheduler_bridge(&*self);
            if key.id < old(self)@.states.len() {
                assert(final(self)@.states =~= old(self)@.states.update(key.id as int, None));
                assert(final(self)@ =~= without_slot(old(self)@, key));
            } else {
                assert(final(self)@ =~= old(self)@);
            }
        }
    }

    /// Interprets the outcome of resuming the process under `key`: applies
    /// the effect `dispatch_effect` describes and reports the violation it
    /// finds, if any. Completion vacates the slot; a command is checked
    /// against the issuer's recorded state, then carried out.
    #[verifier::loop_isolation(false)]
    pub fn dispatch(&mut self, key: Key, step: Either<Action, ()>) -> (r: Result<(), Violation>)
        requires
            old(self).wf(),
        ensures
            final(self).wf(),
            final(self)@.now == old(self)@.now,
            final(self)@ == dispatch_effect(old(self)@, key, step).0,
            r == match dispatch_effect(old(self)@, key, step).1 {
                None => Ok::<(), Violation>(()),
                Some(v) => Err::<(), Violation>(v),
            },
    {
        match step {
            Either::Right(_) => {
                self.remove_slot(key);
                Ok(())
            },
            Either::Left(action) => {
                let state = match self.get_component_state(key) {
                    Some((_, s)) => Some(s),
                    None => None,
                };
                match state {
                    None => Err(Violation::MissingComponent(key)),
                    Some(ComponentState::Passivated) => match action {
                        Action::Hold(_) => Err(Violation::HoldByPassivated(key)),
                        Action::Passivate => Err(Violation::PassivateOnPassivated(key)),
                        Action::ActivateOne(_) => Err(Violation::PassivatedEmittedCommand(key)),
                        Action::ActivateMany(_) => Err(Violation::PassivatedEmittedCommand(key)),
                    },
                    Some(ComponentState::Active) => match action {
                        Action::Hold(d) => {
                            self.schedule(d, key);
                            Ok(())
                        },
                        Action::Passivate => {
                            self.set_state(key, ComponentState::Passivated);
                            Ok(())
                        },
                        Action::ActivateOne(other_key) => {
                            self.schedule_now(key);
                            let r = self.activate(other_key);
                            proof {
                                let v1 = with_event(old(self)@, key, 0);
                                let ks = seq![other_key];
                                assert(ks[0] == other_key);
                                assert(ks.drop_first() =~= Seq::<Key>::empty());
                                if state_at(v1, other_key) matches Some(
                                    ComponentState::Passivated,
                                ) {
                                    let v2 = with_event(
                                        with_state(v1, other_key, ComponentState::Active),
                                        other_key,
                                        0,
                                    );
                                    assert(activate_run(v2, ks.drop_first()) == (
                                        v2,
                                        None::<Violation>,
                                    ));
                                }
                            }
                            r
                        },
                        Action::ActivateMany(other_keys) => {
                            self.schedule_now(key);
                            let ghost mid = self@;
                            let ghost all = other_keys@;
                            proof {
                                assert(all.subrange(0, all.len() as int) =~= all);
                            }
                            let mut idx: usize = 0;
                            while idx < other_keys.len()
                                invariant
                                    self.wf(),
                                    idx <= all.len(),
                                    other_keys@ == all,
                                    self@.now == mid.now,
                                    activate_run(mid, all) == activate_run(
                                        self@,
                                        all.subrange(idx as int, all.len() as int),
                                    ),
                                decreases all.len() - idx,
                            {
                                let k = other_keys[idx];
                                let ghost pre = self@;
                                let ghost rest = all.subrange(idx as int, all.len() as int);
                                let r = self.activate(k);
                                proof {
                                    assert(rest[0] == k);
                                    assert(rest.drop_first() =~= all.subrange(
                                        idx + 1,
                                        all.len() as int,
                                    ));
                                }
                                match r {
                                    Ok(_) => {
                                        idx = idx + 1;
                                    },
                                    Err(v) => {
                                        return Err(v);
                                    },
                                }
                            }
                            proof {
                                assert(all.subrange(all.len() as int, all.len() as int)
                                    =~= Seq::<Key>::empty());
                            }
                            Ok(())
                        },
                    },
                }
            },
        }
    }

    /// Executes one driver iteration: pops the earliest event (ties fall to
    /// the earliest-inserted entry), advances the clock to its time, resumes
    /// the process it names with `resume_with`, and dispatches the outcome.
    ///
    /// On an empty queue nothing changes and the result is `Break`. An event
    /// naming a vacated or never-issued key is `MissingComponent`. Otherwise
    /// the process answers with some outcome `step`, and the iteration ends
    /// exactly as `dispatch` would on `step`: `Advance`, or the violation
    /// the dispatch found. What the process yields is not the driver's
    /// choice, so the contract quantifies over it.
    pub fn step_with(&mut self, resume_with: P::Resume) -> (r: Result<ShouldContinue, Violation>)
        requires
            old(self).wf(),
        ensures
            final(self).wf(),
            final(self)@.now >= old(self)@.now,
            old(self)@.events.len() == 0 ==> r == Ok::<ShouldContinue, Violation>(
                ShouldContinue::Break,
            ) && final(self)@ == old(self)@,
            old(self)@.events.len() > 0 ==> ({
                let e = old(self)@.events[earliest_index(old(self)@.events)];
                let mid = (SimView {
                    events: old(self)@.events.remove(earliest_index(old(self)@.events)),
                    now: e.time,
                    states: old(self)@.states,
                });
                if state_at(mid, e.component) is Some {
                    exists|step: Either<Action, ()>|
                        #[trigger] resumed_outcome(mid, final(self)@, e.component, r, step)
                } else {
                    r == Err::<ShouldContinue, Violation>(Violation::MissingComponent(e.component))
                        && final(self)@ == mid
                }
            }),
    {
        proof {
            wf_scheduler_bridge(old(self));
        }
        let popped = self.scheduler.pop();
        proof {
            wf_scheduler_bridge(&*self);
        }
        match popped {
            None => {
                proof {
                    assert(final(self)@ =~= old(self)@);
                }
                Ok(ShouldContinue::Break)
            },
            Some(entry) => {
                let key = entry.key();
                let ghost mid = self@;
                proof {
                    assert(mid =~= (SimView {
                        events: old(self)@.events.remove(earliest_index(old(self)@.events)),
                        now: old(self)@.events[earliest_index(old(self)@.events)].time,
                        states: old(self)@.states,
                    }));
                }
                match self.get_component_state(key) {
                    None => Err(Violation::MissingComponent(key)),
                    Some(_) => {
                        proof {
                            assert(self@.states[key.id as int] == state_of_slot(
                                self.components@[key.id as int],
                            ));
                        }
                        let step = self.components.step_with(key, resume_with);
                        let ghost gstep = step;
                        proof {
                            assert forall|i: int|
                                0 <= i < self@.states.len() implies self@.states[i]
                                == mid.states[i] by {
                                if i == key.id {
                                    assert(state_in(self.components@, key) == state_in(
                                        old(self).components@,
                                        key,
                                    ));
                                }
                            }
                            assert(self@ =~= mid);
                        }
                        let rd = self.dispatch(key, step);
                        let r: Result<ShouldContinue, Violation> = match rd {
                            Ok(_) => Ok(ShouldContinue::Advance),
                            Err(v) => Err(v),
                        };
                        proof {
                            assert(resumed_outcome(mid, self@, key, r, gstep));
                        }
                        r
                    },
                }
            },
        }
    }
}

impl<P: Process<Resume = ()>> Simulation<P> {
    /// One driver iteration for simulations whose resume type is unit.
    #[inline]
    pub fn step(&mut self) -> (r: Result<ShouldContinue, Violation>)
        requires
            old(self).wf(),
        ensures
            final(self).wf(),
            final(self)@.now >= old(self)@.now,
            old(self)@.events.len() == 0 ==> r == Ok::<ShouldContinue, Violation>(
                ShouldContinue::Break,
            ) && final(self)@ == old(self)@,
            old(self)@.events.len() > 0 ==> ({
                let e = old(self)@.events[earliest_index(old(self)@.events)];
                let mid = (SimView {
                    events: old(self)@.events.remove(earliest_index(old(self)@.events)),
                    now: e.time,
                    states: old(self)@.states,
                });
                if state_at(mid, e.component) is Some {
                    exists|step: Either<Action, ()>|
                        #[trigger] resumed_outcome(mid, final(self)@, e.component, r, step)
                } else {
                    r == Err::<ShouldContinue, Violation>(Violation::MissingComponent(e.component))
                        && final(self)@ == mid
                }
            }),
    {
        self.step_with(())
    }

    /// Runs driver iterations until the queue drains, a violation surfaces,
    /// or `max_steps` iterations have been taken. `Ok(RunEnd::Drained)` is
    /// returned exactly when the queue was seen empty, and then the queue is
    /// empty afterwards; `Ok(RunEnd::StepBudget)` when the budget ran out
    /// first. The clock never decreases across the run.
    pub fn run_until_empty(&mut self, max_steps: u64) -> (r: Result<RunEnd, Violation>)
        requires
            old(self).wf(),
        ensures
            final(self).wf(),
            final(self)@.now >= old(self)@.now,
            r == Ok::<RunEnd, Violation>(RunEnd::Drained) ==> final(self)@.events.len() == 0,
            r != Ok::<RunEnd, Violation>(RunEnd::LimitReached),
            old(self)@.events.len() == 0 && max_steps > 0 ==> r == Ok::<RunEnd, Violation>(
                RunEnd::Drained,
            ) && final(self)@ == old(self)@,
            max_steps == 0 ==> r == Ok::<RunEnd, Violation>(RunEnd::StepBudget) && final(self)@
                == old(self)@,
    {
        let mut fuel = max_steps;
        while fuel > 0
            invariant
                self.wf(),
                fuel <= max_steps,
                self@.now >= old(self)@.now,
                fuel == max_steps ==> self@ == old(self)@,
                old(self)@.events.len() == 0 ==> fuel == max_steps && self@ == old(self)@,
            decreases fuel,
        {
            match self.step() {
                Ok(ShouldContinue::Advance) => {
                    fuel = fuel - 1;
                },
                Ok(ShouldContinue::Break) => {
                    return Ok(RunEnd::Drained);
                },
                Err(v) => {
                    return Err(v);
                },
            }
        }
        Ok(RunEnd::StepBudget)
    }

    /// Runs driver iterations until the queue drains, the clock reaches or
    /// passes `limit` at the end of an iteration, a violation surfaces, or
    /// `max_steps` iterations have been taken. `Ok(RunEnd::Drained)` means
    /// the queue was seen empty; `Ok(RunEnd::LimitReached)` means the clock
    /// stands at or past `limit`. The clock never decreases across the run.
    pub fn run_with_limit(&mut self, limit: u64, max_steps: u64) -> (r: Result<RunEnd, Violation>)
        requires
            old(self).wf(),
        ensures
            final(self).wf(),
            final(self)@.now >= old(self)@.now,
            r == Ok::<RunEnd, Violation>(RunEnd::Drained) ==> final(self)@.events.len() == 0,
            r == Ok::<RunEnd, Violation>(RunEnd::LimitReached) ==> final(self)@.now >= limit,
            old(self)@.events.len() == 0 && max_steps > 0 ==> r == Ok::<RunEnd, Violation>(
                RunEnd::Drained,
            ) && final(self)@ == old(self)@,
            max_steps == 0 ==> r == Ok::<RunEnd, Violation>(RunEnd::StepBudget) && final(self)@
                == old(self)@,
    {
        let mut fuel = max_steps;
        while fuel > 0
            invariant
                self.wf(),
                fuel <= max_steps,
                self@.now >= old(self)@.now,
                fuel == max_steps ==> self@ == old(self)@,
                old(self)@.events.len() == 0 ==> fuel == max_steps && self@ == old(self)@,
            decreases fuel,
        {
            match self.step() {
                Ok(ShouldContinue::Advance) => {
                    if self.time() >= limit {
                        return Ok(RunEnd::LimitReached);
                    }
                    fuel = fuel - 1;
                },
                Ok(ShouldContinue::Break) => {
                    return Ok(RunEnd::Drained);
                },
                Err(v) => {
                    return Err(v);
                },
            }
        }
        Ok(RunEnd::StepBudget)
    }
}

} // verus!
