use desim::Action;
use desim::Container;
use desim::Either;
use desim::Process;

/// A stand-in for a user process: a closed set of behaviours that the
/// container tests drive.
enum TestProcess {
    /// Yields `Passivate` a fixed number of times, then returns.
    Producer { yields_left: u32 },
    /// Yields `Hold(0)` a fixed number of times, then returns.
    Finite { loops_left: u8 },
    /// Yields `Hold(0)` forever.
    Infinite,
}

impl Process for TestProcess {
    type Resume = ();

    fn resume(&mut self, _resume_with: ()) -> Either<Action, ()> {
        match self {
            TestProcess::Producer { yields_left } => {
                if *yields_left > 0 {
                    *yields_left -= 1;
                    Either::Left(Action::Passivate)
                } else {
                    Either::Right(())
                }
            }
            TestProcess::Finite { loops_left } => {
                if *loops_left > 0 {
                    *loops_left -= 1;
                    Either::Left(Action::Hold(0))
                } else {
                    Either::Right(())
                }
            }
            TestProcess::Infinite => Either::Left(Action::Hold(0)),
        }
    }
}

fn producer(_kind: &'static str) -> TestProcess {
    TestProcess::Producer { yields_left: 4 }
}

fn finite(_name: &'static str, _flag: bool, number_of_loops: u8) -> TestProcess {
    TestProcess::Finite {
        loops_left: number_of_loops,
    }
}

fn infinite(_identifier: usize) -> TestProcess {
    TestProcess::Infinite
}

#[test]
fn generators_can_be_inserted() {
    let mut container = Container::default();

    // Assert that the container is empty.
    assert!(container.is_empty());

    // First way of creating and inserting a process into the container.
    let gen = producer("A");
    let first_key = container.add_generator(gen);
    assert_eq!(0, first_key.id());

    // Second way of creating and inserting a process into the container.
    let second_key = container.add_generator(producer("B"));
    assert_eq!(1, second_key.id());

    // A different behaviour can be inserted into the same container.
    let gen = finite("A", true, 42);
    let third_key = container.add_generator(gen);
    assert_eq!(2, third_key.id());

    let fourth_key = container.add_generator(infinite(1));
    assert_eq!(3, fourth_key.id());

    // Assert that all processes were inserted correctly.
    assert_eq!(4, container.len());
}

#[test]
fn generators_can_be_resumed() {
    let mut container = Container::default();

    // Using the finite behaviour: an infinite one would never complete.
    let finite_key = container.add_generator(finite("A", true, 1));

    // The loop continues until the process reports completion.
    loop {
        if let Either::Right(_) = container.step_with(finite_key, ()) {
            break;
        }
    }
}

#[test]
fn removed_keys_stay_stable() {
    let mut container = Container::default();
    let a = container.add_generator(finite("A", false, 1));
    let b = container.add_generator(finite("B", false, 2));
    let c = container.add_generator(finite("C", false, 3));
    assert_eq!(3, container.len());

    // Removing the middle slot does not renumber the others.
    assert!(container.remove(b).is_some());
    assert_eq!(2, container.len());
    assert!(container.get_state(a).is_some());
    assert!(container.get_state(b).is_none());
    assert!(container.get_state(c).is_some());

    // A second removal of the same key finds nothing.
    assert!(container.remove(b).is_none());

    // A later registration gets a fresh key, not the vacated one.
    let d = container.add_generator(finite("D", false, 4));
    assert_eq!(3, d.id());
    assert_eq!(3, container.len());
}

#[test]
fn states_can_be_read_and_written() {
    let mut container = Container::default();
    let a = container.add_generator(producer("A"));
    assert_eq!(Some(&desim::ComponentState::Active), container.get_state(a));

    if let Some(state) = container.get_state_mut(a) {
        *state = desim::ComponentState::Passivated;
    } else {
        panic!("slot must be occupied");
    }
    assert_eq!(
        Some(&desim::ComponentState::Passivated),
        container.get_state(a)
    );

    // Stepping does not touch the recorded state.
    let _ = container.step(a);
    assert_eq!(
        Some(&desim::ComponentState::Passivated),
        container.get_state(a)
    );

    // Out-of-range keys have no state.
    assert_eq!(None, container.get_state(desim::Key::new(7)));
}
