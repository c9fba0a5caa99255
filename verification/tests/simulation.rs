use std::cell::RefCell;
use std::rc::Rc;

use desim::Action;
use desim::ComponentState;
use desim::Either;
use desim::Key;
use desim::Process;
use desim::RunEnd;
use desim::ShouldContinue;
use desim::Simulation;
use desim::Violation;

/// A process driven by a fixed list of commands; it yields them in order and
/// then returns. Every resume appends the process's id to the shared log.
struct Script {
    id: usize,
    steps: Vec<Action>,
    at: usize,
    log: Rc<RefCell<Vec<usize>>>,
}

impl Process for Script {
    type Resume = ();

    fn resume(&mut self, _resume_with: ()) -> Either<Action, ()> {
        self.log.borrow_mut().push(self.id);
        if self.at < self.steps.len() {
            let action = self.steps[self.at].clone();
            self.at += 1;
            Either::Left(action)
        } else {
            Either::Right(())
        }
    }
}

fn script(id: usize, steps: Vec<Action>, log: &Rc<RefCell<Vec<usize>>>) -> Script {
    Script {
        id,
        steps,
        at: 0,
        log: Rc::clone(log),
    }
}

/// A process that yields `Hold(1)` forever.
struct EveryTick;

impl Process for EveryTick {
    type Resume = ();

    fn resume(&mut self, _resume_with: ()) -> Either<Action, ()> {
        Either::Left(Action::Hold(1))
    }
}

#[test]
fn single_finite_process() {
    let log = Rc::new(RefCell::new(Vec::new()));
    let mut sim = Simulation::default();
    let k = sim.add_generator(script(
        0,
        vec![Action::Hold(0), Action::Hold(0), Action::Hold(0)],
        &log,
    ));
    sim.schedule_now(k);

    assert_eq!(Ok(RunEnd::Drained), sim.run_until_empty(100));
    // Three yields and the completing resume: exactly 4 resumes.
    assert_eq!(4, log.borrow().len());
    assert_eq!(0, sim.time());
    // The completed process was removed.
    assert_eq!(None, sim.get_component_state(k));
}

#[test]
fn two_process_activation() {
    let log = Rc::new(RefCell::new(Vec::new()));
    let mut sim = Simulation::default();
    let a = sim.add_generator(script(0, vec![Action::Passivate, Action::Hold(0)], &log));
    let b = sim.add_generator(script(1, vec![Action::activate_one(a)], &log));
    sim.schedule_now(a);
    sim.schedule_now(b);

    assert_eq!(Ok(RunEnd::Drained), sim.run_until_empty(100));
    // A passivates; B activates A (B continues first); B completes;
    // A resumes and holds; A completes.
    assert_eq!(vec![0, 1, 1, 0, 0], *log.borrow());
    assert_eq!(0, sim.time());
    assert_eq!(None, sim.get_component_state(a));
    assert_eq!(None, sim.get_component_state(b));
}

#[test]
fn time_ordering() {
    let log = Rc::new(RefCell::new(Vec::new()));
    let mut sim = Simulation::default();
    let p = sim.add_generator(script(0, vec![Action::Hold(5), Action::Hold(2)], &log));
    sim.schedule_now(p);

    // Resume times are 0, 5, 7: each step pops one resume and leaves the
    // clock at its time.
    assert_eq!(Ok(ShouldContinue::Advance), sim.step());
    assert_eq!(0, sim.time());
    assert_eq!(Ok(ShouldContinue::Advance), sim.step());
    assert_eq!(5, sim.time());
    assert_eq!(Ok(ShouldContinue::Advance), sim.step());
    assert_eq!(7, sim.time());
    assert_eq!(Ok(ShouldContinue::Break), sim.step());
    assert_eq!(7, sim.time());
}

#[test]
fn activate_many_ordering() {
    let log = Rc::new(RefCell::new(Vec::new()));
    let mut sim = Simulation::default();
    let b = sim.add_generator(script(1, vec![Action::Passivate], &log));
    let c = sim.add_generator(script(2, vec![Action::Passivate], &log));
    let d = sim.add_generator(script(3, vec![Action::Passivate], &log));
    let a = sim.add_generator(script(0, vec![Action::activate_many(vec![b, c, d])], &log));

    // B, C and D passivate first; then A wakes them all.
    sim.schedule_now(b);
    sim.schedule_now(c);
    sim.schedule_now(d);
    sim.schedule_now(a);

    assert_eq!(Ok(RunEnd::Drained), sim.run_until_empty(100));
    // After A's activate at time 0, the resumes come in order A, B, C, D.
    assert_eq!(vec![1, 2, 3, 0, 0, 1, 2, 3], *log.borrow());
    assert_eq!(0, sim.time());
}

#[test]
fn limit_halts_mid_run() {
    let mut sim = Simulation::default();
    let first = sim.add_generator(EveryTick);
    let second = sim.add_generator(EveryTick);
    let third = sim.add_generator(EveryTick);
    sim.schedule_now(first);
    sim.schedule_now(second);
    sim.schedule_now(third);

    assert_eq!(Ok(RunEnd::LimitReached), sim.run_with_limit(10, 100_000));
    assert!(sim.time() >= 10);
    // The three processes never complete; they are still resident.
    assert_eq!(Some((first, ComponentState::Active)), sim.get_component_state(first));
    assert_eq!(Some((second, ComponentState::Active)), sim.get_component_state(second));
    assert_eq!(Some((third, ComponentState::Active)), sim.get_component_state(third));
}

#[test]
fn activate_already_active_aborts() {
    let log = Rc::new(RefCell::new(Vec::new()));
    let mut sim = Simulation::default();
    let a = sim.add_generator(script(0, vec![Action::Hold(3)], &log));
    let b = sim.add_generator(script(1, vec![Action::activate_one(a)], &log));
    sim.schedule_now(a);
    sim.schedule_now(b);

    // B activates A while A is still Active: a fatal protocol violation.
    assert_eq!(
        Err(Violation::ActivateAlreadyActive(a)),
        sim.run_until_empty(100)
    );
}

#[test]
fn duplicate_activation_targets_abort() {
    let log = Rc::new(RefCell::new(Vec::new()));
    let mut sim = Simulation::default();
    let b = sim.add_generator(script(1, vec![Action::Passivate], &log));
    let a = sim.add_generator(script(0, vec![Action::activate_many(vec![b, b])], &log));
    sim.schedule_now(b);
    sim.schedule_now(a);

    // The first occurrence wakes B; the second finds it already Active.
    assert_eq!(
        Err(Violation::ActivateAlreadyActive(b)),
        sim.run_until_empty(100)
    );
}

#[test]
fn missing_component_aborts() {
    let mut sim = Simulation::<EveryTick>::default();
    let stale_key = Key::new(42);
    sim.schedule_now(stale_key);

    assert_eq!(
        Err(Violation::MissingComponent(stale_key)),
        sim.run_until_empty(100)
    );
}

#[test]
fn hold_by_passivated_aborts() {
    let log = Rc::new(RefCell::new(Vec::new()));
    let mut sim = Simulation::default();
    let a = sim.add_generator(script(0, vec![Action::Passivate, Action::Hold(1)], &log));
    // Scheduled twice: the second resume reaches a passivated process.
    sim.schedule_now(a);
    sim.schedule_now(a);

    assert_eq!(Err(Violation::HoldByPassivated(a)), sim.run_until_empty(100));
}

#[test]
fn passivate_on_passivated_aborts() {
    let log = Rc::new(RefCell::new(Vec::new()));
    let mut sim = Simulation::default();
    let a = sim.add_generator(script(0, vec![Action::Passivate, Action::Passivate], &log));
    sim.schedule_now(a);
    sim.schedule_now(a);

    assert_eq!(
        Err(Violation::PassivateOnPassivated(a)),
        sim.run_until_empty(100)
    );
}

#[test]
fn activate_by_passivated_aborts() {
    let log = Rc::new(RefCell::new(Vec::new()));
    let mut sim = Simulation::default();
    let b = sim.add_generator(script(1, vec![Action::Passivate], &log));
    let a = sim.add_generator(script(0, vec![Action::Passivate, Action::activate_one(b)], &log));
    sim.schedule_now(a);
    sim.schedule_now(a);

    assert_eq!(
        Err(Violation::PassivatedEmittedCommand(a)),
        sim.run_until_empty(100)
    );
}

#[test]
fn passivation_state_is_observable() {
    let log = Rc::new(RefCell::new(Vec::new()));
    let mut sim = Simulation::default();
    let a = sim.add_generator(script(0, vec![Action::Passivate], &log));
    let b = sim.add_generator(script(1, vec![Action::activate_one(a)], &log));
    assert_eq!(Some((a, ComponentState::Active)), sim.get_component_state(a));

    // A passivates: its recorded state flips.
    sim.schedule_now(a);
    assert_eq!(Ok(ShouldContinue::Advance), sim.step());
    assert_eq!(
        Some((a, ComponentState::Passivated)),
        sim.get_component_state(a)
    );

    // B activates A: the state flips back.
    sim.schedule_now(b);
    assert_eq!(Ok(ShouldContinue::Advance), sim.step());
    assert_eq!(Some((a, ComponentState::Active)), sim.get_component_state(a));
}

#[test]
fn keys_stay_stable_across_removal() {
    let log = Rc::new(RefCell::new(Vec::new()));
    let mut sim = Simulation::default();
    // The first process completes immediately and is removed.
    let a = sim.add_generator(script(0, vec![], &log));
    let b = sim.add_generator(script(1, vec![Action::Passivate], &log));
    assert_eq!(0, a.id());
    assert_eq!(1, b.id());

    sim.schedule_now(a);
    sim.schedule_now(b);
    assert_eq!(Ok(RunEnd::Drained), sim.run_until_empty(100));

    // A is gone, B (passivated) still answers to its old key, and a new
    // registration takes a fresh slot, never A's.
    assert_eq!(None, sim.get_component_state(a));
    assert_eq!(
        Some((b, ComponentState::Passivated)),
        sim.get_component_state(b)
    );
    let c = sim.add_generator(script(2, vec![], &log));
    assert_eq!(2, c.id());
}

#[test]
fn step_budget_is_respected() {
    let mut sim = Simulation::default();
    let p = sim.add_generator(EveryTick);
    sim.schedule_now(p);

    assert_eq!(Ok(RunEnd::StepBudget), sim.run_until_empty(0));
    assert_eq!(Ok(RunEnd::StepBudget), sim.run_until_empty(5));
    // Five resumes of a hold-by-one process leave the clock at 4.
    assert_eq!(4, sim.time());
}

#[test]
fn empty_queue_breaks() {
    let mut sim = Simulation::<EveryTick>::default();
    assert_eq!(Ok(ShouldContinue::Break), sim.step());
    assert_eq!(Ok(RunEnd::Drained), sim.run_until_empty(10));
    assert_eq!(0, sim.time());
}

#[test]
fn hold_round_trip_times() {
    let log = Rc::new(RefCell::new(Vec::new()));
    let mut sim = Simulation::default();
    let p = sim.add_generator(script(
        0,
        vec![Action::Hold(4), Action::Hold(0), Action::Hold(9)],
        &log,
    ));
    sim.schedule(2, p);

    // Resume times: 2, 2+4, 6+0, 6+9.
    let expected = [2u64, 6, 6, 15];
    for t in expected {
        assert_eq!(Ok(ShouldContinue::Advance), sim.step());
        assert_eq!(t, sim.time());
    }
    assert_eq!(Ok(ShouldContinue::Break), sim.step());
    assert_eq!(4, log.borrow().len());
}

#[test]
fn action_constructors_build_the_variants() {
    let k = Key::new(3);
    assert!(matches!(Action::activate_one(k), Action::ActivateOne(x) if x == k));
    let keys = vec![Key::new(1), Key::new(2)];
    assert!(matches!(
        Action::activate_many(keys.clone()),
        Action::ActivateMany(v) if v == keys
    ));
}

#[test]
fn either_carries_both_alternatives() {
    let l: Either<u32, bool> = Either::Left(7);
    let r: Either<u32, bool> = Either::Right(true);
    assert_eq!(l, l.clone());
    assert_eq!(r, r.clone());
    assert_ne!(l, Either::Left(8));
    assert_ne!(l, r);
}
