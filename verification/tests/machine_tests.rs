use tm_lang::executor::MachineExecutor;
use tm_lang::tm::Direction;
use tm_lang::tm::Machine;
use tm_lang::tm::MachineError;
use tm_lang::tm::State;
use tm_lang::tm::TransitionFunction;

fn sym(s: &str) -> String {
    s.to_string()
}

fn unary_flipper() -> Machine {
    let states = vec![
        (
            sym("q0"),
            State {
                transition_functions: vec![
                    TransitionFunction::new(
                        sym("q0"),
                        vec![sym("0")],
                        vec![(sym("1"), Direction::Right)],
                        sym("q0"),
                    ),
                    TransitionFunction::new(
                        sym("q0"),
                        vec!['1'.to_string()],
                        vec![('1'.to_string(), Direction::Right)],
                        sym("q0"),
                    ),
                    TransitionFunction::new(
                        sym("q0"),
                        vec!['_'.to_string()],
                        vec![('_'.to_string(), Direction::Unchanged)],
                        sym("q1"),
                    ),
                ],
                is_end_state: false,
            },
        ),
        (
            sym("q1"),
            State {
                transition_functions: vec![],
                is_end_state: true,
            },
        ),
    ];
    Machine::new(
        vec!['0'.to_string(), '1'.to_string()],
        1,
        states,
        sym("q0"),
    )
    .unwrap()
}

#[test]
fn create_simple_machine() {
    let machine = unary_flipper();
    let mut machine_executor =
        MachineExecutor::new(machine, vec![sym("0"), sym("0"), sym("0")]);
    println!("initial state{:?}", machine_executor.bands);
    while let Some(step) = machine_executor.next_step() {
        println!("{:?}", step);
        println!(" after first step");
        println!("{:?}", machine_executor.bands);
        println!("{:?}", machine_executor.bands_cursors);
        println!("{:?}", machine_executor.current_state);
    }
    assert!(machine_executor.current_state.is_end_state);
    let bands = machine_executor.bands.get(0).unwrap();
    assert_eq!(
        bands.iter().flat_map(|s| s.chars()).collect::<String>(),
        "111_"
    );
}

#[test]
fn end_to_end_scenario() {
    // Three transitions rewrite 0 to 1 moving right, a fourth reads the
    // implicit blank and moves to the terminal state, then nothing matches.
    let machine = unary_flipper();
    let mut exec = MachineExecutor::new(machine, vec![sym("0"), sym("0"), sym("0")]);
    let mut fired = Vec::new();
    while let Some(step) = exec.next_step() {
        fired.push(step);
        assert!(fired.len() <= 8, "the machine must terminate");
    }
    assert_eq!(fired.len(), 4);
    for step in fired.iter().take(3) {
        assert_eq!(step.transition_index, 0);
        assert_eq!(step.transition.bands_actions[0].0, "1");
        assert!(matches!(step.transition.bands_actions[0].1, Direction::Right));
    }
    assert_eq!(fired[3].transition_index, 2);
    assert_eq!(fired[3].transition.next_state_name, "q1");
    assert!(exec.current_state.is_end_state);
    assert_eq!(exec.bands[0], vec![sym("1"), sym("1"), sym("1"), sym("_")]);
}

#[test]
fn blank_always_in_alphabet() {
    // The caller declares no blank; construction adjoins it.
    let states = vec![(sym("q0"), State::new(vec![], true))];
    let machine = Machine::new(vec![sym("x")], 1, states, sym("q0")).unwrap();
    assert!(machine.alphabet.iter().any(|s| s == "_"));

    // Declaring it yourself adds nothing twice.
    let states = vec![(sym("q0"), State::new(vec![], true))];
    let machine = Machine::new(vec![sym("_"), sym("x")], 1, states, sym("q0")).unwrap();
    assert_eq!(machine.alphabet.iter().filter(|s| *s == "_").count(), 1);
}

#[test]
fn missing_start_state_rejected() {
    let states = vec![(sym("q1"), State::new(vec![], true))];
    let err = Machine::new(vec![sym("0")], 1, states, sym("q0")).unwrap_err();
    assert_eq!(err, MachineError::StartStateMissing);
    assert_eq!(err.message(), "origin not in states");
}

#[test]
fn construction_errors() {
    // A rule whose requirement list is not one per tape.
    let tf = TransitionFunction::new(
        sym("q0"),
        vec![sym("0"), sym("0")],
        vec![(sym("0"), Direction::Right), (sym("0"), Direction::Right)],
        sym("q0"),
    );
    let states = vec![(sym("q0"), State::new(vec![tf], false))];
    assert_eq!(
        Machine::new(vec![sym("0")], 1, states, sym("q0")).unwrap_err(),
        MachineError::RequirementArityMismatch,
    );

    // A rule reading a symbol the alphabet does not declare.
    let tf = TransitionFunction::new(
        sym("q0"),
        vec![sym("z")],
        vec![(sym("0"), Direction::Right)],
        sym("q0"),
    );
    let states = vec![(sym("q0"), State::new(vec![tf], false))];
    assert_eq!(
        Machine::new(vec![sym("0")], 1, states, sym("q0")).unwrap_err(),
        MachineError::UndeclaredSymbol,
    );

    // A rule whose action list is not one per tape; the requirement and
    // action lists pair up, so the machine must declare two tapes for the
    // requirement check to pass first.
    let tf = TransitionFunction {
        origin: sym("q0"),
        bands_requirements: vec![sym("0")],
        bands_actions: vec![(sym("0"), Direction::Right)],
        next_state_name: sym("q0"),
    };
    let tf2 = TransitionFunction {
        origin: sym("q0"),
        bands_requirements: vec![sym("0")],
        bands_actions: vec![(sym("0"), Direction::Right), (sym("0"), Direction::Left)],
        next_state_name: sym("q0"),
    };
    let states = vec![(sym("q0"), State::new(vec![tf2], false))];
    assert_eq!(
        Machine::new(vec![sym("0")], 1, states, sym("q0")).unwrap_err(),
        MachineError::ActionArityMismatch,
    );

    // A rule whose destination state does not exist.
    let tf3 = TransitionFunction::new(
        sym("q0"),
        vec![sym("0")],
        vec![(sym("0"), Direction::Right)],
        sym("missing"),
    );
    let states = vec![(sym("q0"), State::new(vec![tf3, tf], false))];
    assert_eq!(
        Machine::new(vec![sym("0")], 1, states, sym("q0")).unwrap_err(),
        MachineError::UnknownNextState,
    );

    // A rule writing a symbol the alphabet does not declare.
    let tf4 = TransitionFunction::new(
        sym("q0"),
        vec![sym("0")],
        vec![(sym("z"), Direction::Right)],
        sym("q0"),
    );
    let states = vec![(sym("q0"), State::new(vec![tf4], false))];
    assert_eq!(
        Machine::new(vec![sym("0")], 1, states, sym("q0")).unwrap_err(),
        MachineError::UndeclaredSymbol,
    );
}

#[test]
fn multi_tape_match_is_conjunctive() {
    // A rule requiring (a, b) must not fire when only tape 0 matches.
    let rule = TransitionFunction::new(
        sym("q0"),
        vec![sym("a"), sym("b")],
        vec![(sym("a"), Direction::Unchanged), (sym("b"), Direction::Unchanged)],
        sym("q1"),
    );
    let states = vec![
        (sym("q0"), State::new(vec![rule], false)),
        (sym("q1"), State::new(vec![], true)),
    ];
    let machine = Machine::new(vec![sym("a"), sym("b")], 2, states, sym("q0")).unwrap();

    // Tape 0 reads `a`, tape 1 reads the implicit blank: no transition.
    let mut exec = MachineExecutor::new(machine.clone(), vec![sym("a")]);
    assert!(exec.next_step().is_none());
    assert!(!exec.current_state.is_end_state);

    // Both tapes must match at once for the rule to fire.
    let rule = TransitionFunction::new(
        sym("q0"),
        vec![sym("a"), sym("_")],
        vec![(sym("a"), Direction::Unchanged), (sym("b"), Direction::Unchanged)],
        sym("q1"),
    );
    let states = vec![
        (sym("q0"), State::new(vec![rule], false)),
        (sym("q1"), State::new(vec![], true)),
    ];
    let machine = Machine::new(vec![sym("a"), sym("b")], 2, states, sym("q0")).unwrap();
    let mut exec = MachineExecutor::new(machine, vec![sym("a")]);
    let step = exec.next_step().unwrap();
    assert_eq!(step.transition_index, 0);
    assert!(exec.current_state.is_end_state);
}

#[test]
fn tape_grows_right_and_clamps_left() {
    // Moving right from the last cell appends a blank before advancing.
    let grower = TransitionFunction::new(
        sym("q0"),
        vec![sym("_")],
        vec![(sym("x"), Direction::Right)],
        sym("q0"),
    );
    let states = vec![(sym("q0"), State::new(vec![grower], false))];
    let machine = Machine::new(vec![sym("x")], 1, states, sym("q0")).unwrap();
    let mut exec = MachineExecutor::new(machine, vec![]);
    assert!(exec.next_step().is_some());
    assert_eq!(exec.bands[0], vec![sym("x"), sym("_")]);
    assert_eq!(exec.bands_cursors[0], 1);
    assert!(exec.next_step().is_some());
    assert_eq!(exec.bands[0], vec![sym("x"), sym("x"), sym("_")]);
    assert_eq!(exec.bands_cursors[0], 2);

    // Moving left from cell 0 leaves the cursor at 0.
    let clamper = TransitionFunction::new(
        sym("q0"),
        vec![sym("_")],
        vec![(sym("_"), Direction::Left)],
        sym("q0"),
    );
    let states = vec![(sym("q0"), State::new(vec![clamper], false))];
    let machine = Machine::new(vec![], 1, states, sym("q0")).unwrap();
    let mut exec = MachineExecutor::new(machine, vec![]);
    assert!(exec.next_step().is_some());
    assert_eq!(exec.bands_cursors[0], 0);
    assert!(exec.next_step().is_some());
    assert_eq!(exec.bands_cursors[0], 0);
}

#[test]
fn rules_match_in_declaration_order() {
    // Two rules match the same symbol; the first declared fires.
    let first = TransitionFunction::new(
        sym("q0"),
        vec![sym("a")],
        vec![(sym("a"), Direction::Unchanged)],
        sym("q1"),
    );
    let second = TransitionFunction::new(
        sym("q0"),
        vec![sym("a")],
        vec![(sym("a"), Direction::Unchanged)],
        sym("q2"),
    );
    let states = vec![
        (sym("q0"), State::new(vec![first, second], false)),
        (sym("q1"), State::new(vec![], true)),
        (sym("q2"), State::new(vec![], false)),
    ];
    let machine = Machine::new(vec![sym("a")], 1, states, sym("q0")).unwrap();
    let mut exec = MachineExecutor::new(machine, vec![sym("a")]);
    let step = exec.next_step().unwrap();
    assert_eq!(step.transition_index, 0);
    assert_eq!(step.transition.next_state_name, "q1");
    assert!(exec.current_state.is_end_state);
}
