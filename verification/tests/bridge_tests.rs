use std::collections::HashMap;

use tm_lang::ast::AtomicTmStep;
use tm_lang::ast::TmDir;
use tm_lang::ast::TmOperation;
use tm_lang::ast::TmStep;
use tm_lang::bridge::machine_from_table;
use tm_lang::bridge::state_name;
use tm_lang::executor::MachineExecutor;
use tm_lang::lower::into_steps;
use tm_lang::parser::TmParser;
use tm_lang::tm::Direction;
use tm_lang::tm::MachineError;

fn sym(s: &str) -> String {
    s.to_string()
}

#[test]
fn state_names_are_decimal() {
    assert_eq!(state_name(0), "0");
    assert_eq!(state_name(7), "7");
    assert_eq!(state_name(10), "10");
    assert_eq!(state_name(1203), "1203");
    assert_eq!(state_name(u32::MAX), "4294967295");
}

#[test]
fn compiled_program_runs_on_the_engine() {
    // The whole pipeline: parse, lower, bridge, execute.
    let src = "fn flip [_, 0, 1] { cycle { 0 -> 1 >> or halt; } }";
    let (def, _) = TmParser::parse_def(src).unwrap();
    let alphabet = def.alphabet.clone();
    let table = into_steps(def);
    let machine = machine_from_table(&table, 64, alphabet).unwrap();
    assert_eq!(machine.start_state_name, "1");

    let mut exec = MachineExecutor::new(machine, vec![sym("0"), sym("0"), sym("0")]);
    let mut fired: usize = 0;
    while let Some(_) = exec.next_step() {
        fired += 1;
        assert!(fired <= 16, "the compiled machine must halt");
    }
    assert_eq!(fired, 4);
    assert!(exec.current_state.is_end_state);
    assert_eq!(
        exec.bands[0],
        vec![sym("1"), sym("1"), sym("1"), sym("_")]
    );
}

#[test]
fn break_exits_to_what_follows_the_cycle() {
    let src = "fn t [_, a] { cycle { a >> or break; } halt; }";
    let (def, _) = TmParser::parse_def(src).unwrap();
    let alphabet = def.alphabet.clone();
    let table = into_steps(def);
    let machine = machine_from_table(&table, 64, alphabet).unwrap();

    let mut exec = MachineExecutor::new(machine, vec![sym("a"), sym("a")]);
    let mut fired = Vec::new();
    while let Some(step) = exec.next_step() {
        fired.push(step);
        assert!(fired.len() <= 16, "the compiled machine must halt");
    }
    // Two moves over `a`, the break on the blank, then the halt.
    assert_eq!(fired.len(), 4);
    assert!(exec.current_state.is_end_state);
    assert_eq!(fired[2].transition.next_state_name, fired[3].transition.origin);
    assert_eq!(fired[3].transition.next_state_name, "0");
}

#[test]
fn dangling_target_is_rejected() {
    let step = TmStep::new(
        vec![AtomicTmStep::new(vec![sym("a")], None, TmDir::Right)],
        None,
    );
    let mut table = HashMap::new();
    table.insert(1u32, (step, 5u32, 0u32));
    let err = machine_from_table(&table, 64, vec![sym("a")]).unwrap_err();
    assert_eq!(err, MachineError::UnknownNextState);
}

#[test]
fn empty_table_gives_a_terminal_machine() {
    let table = HashMap::new();
    let machine = machine_from_table(&table, 4, vec![sym("a")]).unwrap();
    assert_eq!(machine.start_state_name, "0");
    assert_eq!(machine.states.len(), 1);
    let mut exec = MachineExecutor::new(machine, vec![sym("a")]);
    assert!(exec.next_step().is_none());
    assert!(exec.current_state.is_end_state);
}

#[test]
fn default_expands_over_uncovered_symbols() {
    // One explicit case on `a`; a break default must cover `_` and `b`,
    // but not `a` again.
    let step = TmStep::new(
        vec![AtomicTmStep::new(vec![sym("a")], None, TmDir::Right)],
        Some(TmOperation::Break),
    );
    let mut table = HashMap::new();
    table.insert(1u32, (step, 1u32, 0u32));
    let machine = machine_from_table(&table, 4, vec![sym("a"), sym("b")]).unwrap();
    let state = &machine
        .states
        .iter()
        .find(|(name, _)| name == "1")
        .unwrap()
        .1;
    let reqs: Vec<&str> = state
        .transition_functions
        .iter()
        .map(|tf| tf.bands_requirements[0].as_str())
        .collect();
    assert_eq!(reqs, vec!["a", "b", "_"]);
    assert!(matches!(
        state.transition_functions[0].bands_actions[0].1,
        Direction::Right
    ));
    // The expanded rules leave the symbol unchanged and exit to `outer`.
    assert_eq!(state.transition_functions[1].bands_actions[0].0, "b");
    assert_eq!(state.transition_functions[1].next_state_name, "0");
}
