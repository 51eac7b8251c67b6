use odis::bitset::BitSet;
use odis::canonical_basis::index_canonical_basis;
use odis::exploration_machine::{ExplorationInput, ExplorationMachine, ExplorationState};
use odis::formal_context::FormalContext;

fn load_context() -> FormalContext<String> {
    let bytes = [
        "B\n\n8\n9\n\n",
        "fish leech\nbream\nfrog\ndog\nwater weeds\nreed\nbean\ncorn\n",
        "needs water to live\nlives in water\nlives on land\nneeds chlorophyll\n",
        "dicotyledon\nmonocotyledon\ncan move\nhas limbs\nbreast feeds\n",
        "XX....X..\nXX....XX.\nXXX...XX.\nX.X...XXX\nXX.X.X...\nXXXX.X...\nX.XXX....\nX.XX.X...\n",
    ]
    .concat();
    FormalContext::<String>::from(bytes.as_bytes()).unwrap()
}

#[test]
fn exploration_machine_drives_to_finished() {
    let context = load_context();
    let mut machine = ExplorationMachine::new();

    let state = machine.process_input(&context, ExplorationInput::Start);
    assert_ne!(state, ExplorationState::Idle);

    let mut iterations = 0;
    loop {
        match machine.state.clone() {
            ExplorationState::ValidatingImplication { .. } => {
                machine.process_input(&context, ExplorationInput::Yes);
            }
            ExplorationState::Finished => break,
            other => panic!("Unexpected state: {:?}", other),
        }
        iterations += 1;
        assert!(iterations < 1000, "exploration did not terminate");
    }

    assert_eq!(machine.state, ExplorationState::Finished);
    assert!(!machine.basis.is_empty(), "basis should be non-empty for a non-trivial context");
}

#[test]
fn accepting_every_implication_yields_the_canonical_basis() {
    let context = load_context();
    let mut machine = ExplorationMachine::new();
    machine.process_input(&context, ExplorationInput::Start);
    while machine.state != ExplorationState::Finished {
        machine.process_input(&context, ExplorationInput::Yes);
    }
    assert_eq!(machine.basis, index_canonical_basis(&context));
}

#[test]
fn a_counterexample_enters_the_context_and_exploration_goes_on() {
    // Two attributes and one object with neither: the first proposal is
    // that every object has both.
    let mut context = FormalContext::<String>::from(b"B\n\n1\n2\n\ng\na\nb\n..\n").unwrap();
    let mut machine = ExplorationMachine::new();
    let state = machine.process_input(&context, ExplorationInput::Start);
    match state {
        ExplorationState::ValidatingImplication { .. } => {}
        other => panic!("Unexpected state: {:?}", other),
    }
    let state = machine.process_input(&context, ExplorationInput::No);
    assert!(matches!(state, ExplorationState::AwaitingCounterexample { .. }));

    let mut counterexample = BitSet::new();
    counterexample.insert(1);
    context.add_object("h".to_string(), &counterexample);
    let state = machine.process_input(&context, ExplorationInput::Submit { counterexample });
    assert_ne!(state, ExplorationState::Idle);

    let stopped = machine.process_input(&context, ExplorationInput::Stop);
    assert_eq!(stopped, ExplorationState::Idle);
}
