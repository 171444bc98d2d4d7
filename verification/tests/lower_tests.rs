use std::collections::HashMap;

use tm_lang::ast::TmOperation;
use tm_lang::ast::TmStep;
use tm_lang::lower::into_steps;
use tm_lang::parser::TmParser;

type Table = HashMap<u32, (TmStep, u32, u32)>;

fn lower(src: &str) -> Table {
    let (def, _) = TmParser::parse_def(src).unwrap();
    into_steps(def)
}

fn assert_no_dangling(table: &Table) {
    for (id, (_, next, outer)) in table {
        assert!(
            *next == 0 || table.contains_key(next),
            "state {id}: next {next} dangles"
        );
        assert!(
            *outer == 0 || table.contains_key(outer),
            "state {id}: outer {outer} dangles"
        );
    }
}

#[test]
fn single_step_lowers_to_entry_state() {
    let table = lower("fn t [_] { >>; }");
    assert_eq!(table.len(), 1);
    let (step, next, outer) = &table[&1];
    assert!(matches!(
        step.default,
        Some(TmOperation::Move { replace: None, .. })
    ));
    assert_eq!((*next, *outer), (0, 0));
    assert_no_dangling(&table);
}

#[test]
fn cycle_reenters_its_own_entry() {
    // The cycle's body is one step; falling off the end of the body must
    // return to the body's entry state, not to what follows the cycle.
    let table = lower("fn t [_] { cycle { >>; } }");
    assert_eq!(table.len(), 1);
    let (_, next, outer) = &table[&1];
    assert_eq!(*next, 1, "the body's last step continues at the cycle's entry");
    assert_eq!(*outer, 0, "a break inside the cycle exits to what follows it");
    assert_no_dangling(&table);
}

#[test]
fn cycle_followed_by_step() {
    // cycle { break; } then a halt: the break's exit must lead to the
    // following statement's state.
    let table = lower("fn t [_] { cycle { break; } halt; }");
    assert_eq!(table.len(), 2);
    let after: Vec<&u32> = table
        .iter()
        .filter(|(_, (step, _, _))| matches!(step.default, Some(TmOperation::Halt)))
        .map(|(id, _)| id)
        .collect();
    assert_eq!(after.len(), 1);
    let halt_id = *after[0];
    let (_, next, outer) = &table[&1];
    assert_eq!(*next, 1, "the cycle re-enters itself");
    assert_eq!(*outer, halt_id, "break exits to the statement after the cycle");
    let (_, next, outer) = &table[&halt_id];
    assert_eq!((*next, *outer), (0, 0));
    assert_no_dangling(&table);
}

#[test]
fn branch_threads_both_continuations() {
    let table = lower("fn t [_, a] { branch a { halt; } a >>; }");
    assert_eq!(table.len(), 3);
    // The branch condition sits at the entry state; its matched case leads
    // into the body, and its no-match path leads to the following statement.
    let (cond, body_id, no_match_id) = {
        let (step, next, outer) = &table[&1];
        (step, *next, *outer)
    };
    assert_eq!(cond.cases.len(), 1);
    assert!(table.contains_key(&body_id));
    assert!(table.contains_key(&no_match_id));
    assert_ne!(body_id, no_match_id);
    // The body's completion and exit both lead to the branch's outer
    // continuation, not back to the sibling statement.
    let (body_step, body_next, body_outer) = &table[&body_id];
    assert!(matches!(body_step.default, Some(TmOperation::Halt)));
    assert_eq!((*body_next, *body_outer), (0, 0));
    // The following statement terminates.
    let (_, next, outer) = &table[&no_match_id];
    assert_eq!((*next, *outer), (0, 0));
    assert_no_dangling(&table);
}

#[test]
fn lowering_has_no_dangling_targets() {
    let table = lower(
        "fn busy [_, 0, 1] { cycle { branch 0 { 0 -> 1 >>; } 1 << or break; } halt; }",
    );
    assert!(table.len() >= 4);
    assert_no_dangling(&table);
}

#[test]
fn empty_definition_lowers_to_empty_table() {
    let table = lower("fn t [_] {}");
    assert!(table.is_empty());
}
