use tm_lang::ast::TmDir;
use tm_lang::ast::TmOperation;
use tm_lang::ast::TmStmt;
use tm_lang::parser::ParseErrorKind;
use tm_lang::parser::TmParser;
use tm_lang::parser::tm_alpha;
use tm_lang::parser::tm_alpha_set;
use tm_lang::parser::tm_ident;

#[test]
fn keywords_rejected_as_identifiers() {
    for kw in ["cycle", "branch", "break", "halt"] {
        let err = tm_ident(kw, 0).unwrap_err();
        assert_eq!(err.kind, ParseErrorKind::UnexpectedKeyword, "{kw}");
        assert_eq!(err.position, 0);
    }
}

#[test]
fn keywords_rejected_as_symbols() {
    for kw in ["cycle", "branch", "break", "halt"] {
        let err = tm_alpha(kw, 0).unwrap_err();
        assert_eq!(err.kind, ParseErrorKind::UnexpectedKeyword, "{kw}");
        assert_eq!(err.position, 0);
    }
}

#[test]
fn identifiers_and_symbols() {
    let (id, p) = tm_ident("flip3_x rest", 0).unwrap();
    assert_eq!(id, "flip3_x");
    assert_eq!(p, 7);
    // A keyword with more word characters after it is an ordinary identifier.
    let (id, _) = tm_ident("cycles", 0).unwrap();
    assert_eq!(id, "cycles");
    // An identifier cannot start with a digit.
    let err = tm_ident("3x", 0).unwrap_err();
    assert_eq!(err.kind, ParseErrorKind::UnexpectedCharacter);

    let (s, p) = tm_alpha("$0' ,", 0).unwrap();
    assert_eq!(s, "$0'");
    assert_eq!(p, 3);
    let err = tm_alpha(";", 0).unwrap_err();
    assert_eq!(err.kind, ParseErrorKind::UnexpectedCharacter);
    assert_eq!(err.position, 0);
}

#[test]
fn alphabet_set_needs_blank() {
    let (set, p) = tm_alpha_set("[_, 0, 1] {", 0).unwrap();
    assert_eq!(set, vec!["_".to_string(), "0".to_string(), "1".to_string()]);
    assert_eq!(p, 10);

    let err = tm_alpha_set("[0, 1]", 0).unwrap_err();
    assert_eq!(err.kind, ParseErrorKind::MissingBlank);
    assert_eq!(err.position, 0);

    // An unclosed set is a missing-token error at the offending position.
    let err = tm_alpha_set("[_, 0", 0).unwrap_err();
    assert_eq!(err.kind, ParseErrorKind::MissingToken);
    assert_eq!(err.position, 5);
}

#[test]
fn parse_whole_definition() {
    let src = "fn flip [_, 0, 1] { cycle { 0 -> 1 >> or 1 -> 0 >> or break; } halt; }";
    let (def, end) = TmParser::parse_def(src).unwrap();
    assert_eq!(def.identifier, "flip");
    assert_eq!(
        def.alphabet,
        vec!["_".to_string(), "0".to_string(), "1".to_string()]
    );
    assert_eq!(end, src.len());
    assert_eq!(def.block.0.len(), 2);

    let body = match &def.block.0[0] {
        TmStmt::Cycle(b) => b,
        other => panic!("expected a cycle, found {other:?}"),
    };
    assert_eq!(body.0.len(), 1);
    let step = match &body.0[0] {
        TmStmt::Step(s) => s,
        other => panic!("expected a step, found {other:?}"),
    };
    assert_eq!(step.cases.len(), 2);
    assert_eq!(step.cases[0].0, "0");
    assert!(matches!(
        &step.cases[0].1,
        TmOperation::Move { replace: Some(r), direction: TmDir::Right } if r == "1"
    ));
    assert_eq!(step.cases[1].0, "1");
    assert!(matches!(
        &step.cases[1].1,
        TmOperation::Move { replace: Some(r), direction: TmDir::Right } if r == "0"
    ));
    assert!(matches!(step.default, Some(TmOperation::Break)));

    let halt_step = match &def.block.0[1] {
        TmStmt::Step(s) => s,
        other => panic!("expected a step, found {other:?}"),
    };
    assert!(halt_step.cases.is_empty());
    assert!(matches!(halt_step.default, Some(TmOperation::Halt)));
}

#[test]
fn parse_branch_statement() {
    let src = "fn t [_, a] { branch a { halt; } a >>; }";
    let (def, _) = TmParser::parse_def(src).unwrap();
    assert_eq!(def.block.0.len(), 2);
    let (condition, body) = match &def.block.0[0] {
        TmStmt::Branch { condition, body } => (condition, body),
        other => panic!("expected a branch, found {other:?}"),
    };
    assert_eq!(condition.cases.len(), 1);
    assert_eq!(condition.cases[0].0, "a");
    assert!(matches!(
        &condition.cases[0].1,
        TmOperation::Move { replace: None, direction: TmDir::Stay }
    ));
    assert_eq!(body.0.len(), 1);
    assert!(matches!(&body.0[0], TmStmt::Step(_)));
}

#[test]
fn first_declared_pattern_wins_through_the_parser() {
    // The symbol 0 appears in two alternatives; the first declaration wins.
    let src = "fn t [_, 0] { 0 -> 0 or 0 >>; }";
    let (def, _) = TmParser::parse_def(src).unwrap();
    let step = match &def.block.0[0] {
        TmStmt::Step(s) => s,
        other => panic!("expected a step, found {other:?}"),
    };
    assert_eq!(step.cases.len(), 1);
    assert_eq!(step.cases[0].0, "0");
    assert!(matches!(
        &step.cases[0].1,
        TmOperation::Move { replace: Some(r), direction: TmDir::Stay } if r == "0"
    ));
    assert!(step.default.is_none());
}

#[test]
fn undeclared_symbol_rejected_at_parse_time() {
    let err = TmParser::parse_def("fn t [_, 0] { 9 >>; }").unwrap_err();
    assert_eq!(err.kind, ParseErrorKind::UndeclaredSymbol);
    assert_eq!(err.position, 14);

    let err = TmParser::parse_def("fn t [_, 0] { 0 -> 9; }").unwrap_err();
    assert_eq!(err.kind, ParseErrorKind::UndeclaredSymbol);
    assert_eq!(err.position, 19);
}

#[test]
fn structural_errors() {
    // Not a definition at all.
    let err = TmParser::parse_def("machine").unwrap_err();
    assert_eq!(err.kind, ParseErrorKind::MissingToken);
    assert_eq!(err.position, 0);

    // A keyword as the machine name.
    let err = TmParser::parse_def("fn halt [_] {}").unwrap_err();
    assert_eq!(err.kind, ParseErrorKind::UnexpectedKeyword);

    // A missing semicolon after a step.
    let err = TmParser::parse_def("fn t [_] { >> }").unwrap_err();
    assert_eq!(err.kind, ParseErrorKind::MissingToken);
    assert_eq!(err.position, 14);

    // An unclosed block.
    let err = TmParser::parse_def("fn t [_] { >>;").unwrap_err();
    assert_eq!(err.kind, ParseErrorKind::MissingToken);
    assert_eq!(err.position, 14);
}

#[test]
fn empty_block_parses() {
    let (def, end) = TmParser::parse_def("fn t [_] {}").unwrap();
    assert!(def.block.0.is_empty());
    assert_eq!(end, 11);
}
