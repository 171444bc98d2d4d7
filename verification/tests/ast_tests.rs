use tm_lang::ast::AtomicTmStep;
use tm_lang::ast::TmBlock;
use tm_lang::ast::TmDef;
use tm_lang::ast::TmDir;
use tm_lang::ast::TmOperation;
use tm_lang::ast::TmStep;
use tm_lang::ast::TmStmt;

fn sym(s: &str) -> String {
    s.to_string()
}

#[test]
fn first_declaration_wins_in_step_merge() {
    // `a` and `b` share the first alternative's operation; `b` appears again
    // in the second alternative and must keep the first binding.
    let atomics = vec![
        AtomicTmStep::new(vec![sym("a"), sym("b")], None, TmDir::Left),
        AtomicTmStep::new(vec![sym("b"), sym("c")], Some(sym("a")), TmDir::Right),
    ];
    let step = TmStep::new(atomics, Some(TmOperation::Halt));

    assert_eq!(step.cases.len(), 3);
    let keys: Vec<&str> = step.cases.iter().map(|(k, _)| k.as_str()).collect();
    assert_eq!(keys, vec!["a", "b", "c"]);
    assert!(matches!(
        &step.cases[0].1,
        TmOperation::Move { replace: None, direction: TmDir::Left }
    ));
    assert!(matches!(
        &step.cases[1].1,
        TmOperation::Move { replace: None, direction: TmDir::Left }
    ));
    assert!(matches!(
        &step.cases[2].1,
        TmOperation::Move { replace: Some(r), direction: TmDir::Right } if r == "a"
    ));
    assert!(matches!(step.default, Some(TmOperation::Halt)));
}

#[test]
fn duplicate_patterns_become_one_case()  {
    let atomics = vec![AtomicTmStep::new(
        vec![sym("x"), sym("x"), sym("x")],
        None,
        TmDir::Stay,
    )];
    let step = TmStep::new(atomics, None);
    assert_eq!(step.cases.len(), 1);
    assert_eq!(step.cases[0].0, "x");
    assert!(step.default.is_none());
}

#[test]
fn definition_holds_its_parts() {
    let block = TmBlock::new(vec![TmStmt::Step(TmStep::new(vec![], None))]);
    let def = TmDef::new(sym("loop_once"), vec![sym("_"), sym("0")], block);
    assert_eq!(def.identifier, "loop_once");
    assert_eq!(def.alphabet, vec![sym("_"), sym("0")]);
    assert_eq!(def.block.0.len(), 1);
}
