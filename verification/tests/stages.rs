//! The three stages one by one: parser verdicts, generated code, and the
//! virtual machine on handcrafted programs.

use myregex::parser::parse;
use myregex::parser::AST;
use myregex::parser::ParseError;
use myregex::codegen::get_code;
use myregex::codegen::Instruction;
use myregex::evaluator::eval;
use myregex::evaluator::EvalError;

#[test]
fn parse_rejects_operator_without_operand() {
    assert_eq!(parse("+b").unwrap_err(), ParseError::NoPrev(0));
    assert_eq!(parse("*b").unwrap_err(), ParseError::NoPrev(0));
    assert_eq!(parse("|b").unwrap_err(), ParseError::NoPrev(0));
    assert_eq!(parse("?b").unwrap_err(), ParseError::NoPrev(0));
    assert_eq!(parse("ab|+cd").unwrap_err(), ParseError::NoPrev(3));
}

#[test]
fn parse_rejects_empty_expressions() {
    assert_eq!(parse("").unwrap_err(), ParseError::Empty);
    assert_eq!(parse("()").unwrap_err(), ParseError::Empty);
}

#[test]
fn parse_rejects_unbalanced_parentheses() {
    assert_eq!(parse("abc)").unwrap_err(), ParseError::InvalidRightParen(3));
    assert_eq!(parse("(abc").unwrap_err(), ParseError::NoRightParen);
}

#[test]
fn parse_rejects_unknown_escape() {
    assert_eq!(parse("a\\x").unwrap_err(), ParseError::InvalidEscape(2, 'x'));
}

#[test]
fn parse_builds_expected_shapes() {
    assert!(matches!(parse("a").unwrap(), AST::Sequence(_)));
    assert!(matches!(parse("a|b").unwrap(), AST::Or(_, _)));
    match parse("a|b|c").unwrap() {
        AST::Or(_, right) => {
            // alternation is right-folded: b|c stays nested inside
            assert!(matches!(*right, AST::Or(_, _)));
        },
        other => panic!("unexpected shape: {:?}", other),
    }
    let starred = parse("(abc)*").unwrap();
    match starred {
        AST::Sequence(items) => {
            assert_eq!(items.len(), 1);
            assert!(matches!(items[0], AST::Star(_)));
        },
        other => panic!("unexpected shape: {:?}", other),
    }
}

#[test]
fn generated_code_for_alternation() {
    let ast = parse("a|b").unwrap();
    let code = get_code(&ast).unwrap();
    assert_eq!(
        code,
        vec![
            Instruction::Split(1, 3),
            Instruction::Char('a'),
            Instruction::Jump(4),
            Instruction::Char('b'),
            Instruction::Match,
        ]
    );
}

#[test]
fn generated_code_for_star() {
    let ast = parse("a*").unwrap();
    let code = get_code(&ast).unwrap();
    assert_eq!(
        code,
        vec![
            Instruction::Split(1, 3),
            Instruction::Char('a'),
            Instruction::Jump(0),
            Instruction::Match,
        ]
    );
}

#[test]
fn generated_code_always_ends_in_match() {
    for expr in ["a", "abc", "a|b|c", "(ab)+c?", "((a|b)*c)+", "\\(\\)"] {
        let ast = parse(expr).unwrap();
        let code = get_code(&ast).unwrap();
        assert!(!code.is_empty());
        assert_eq!(*code.last().unwrap(), Instruction::Match);
    }
}

#[test]
fn eval_reports_invalid_program_counter() {
    let bad = [Instruction::Jump(5)];
    let line: [char; 0] = [];
    assert_eq!(eval(&bad, &line, true).unwrap_err(), EvalError::InvalidPC);
    assert_eq!(eval(&bad, &line, false).unwrap_err(), EvalError::InvalidPC);
}

#[test]
fn eval_runs_handcrafted_program() {
    // the program for "ab|b": split, 'a', 'b', jump past, 'b', match
    let code = [
        Instruction::Split(1, 4),
        Instruction::Char('a'),
        Instruction::Char('b'),
        Instruction::Jump(5),
        Instruction::Char('b'),
        Instruction::Match,
    ];
    for use_dfs in [true, false] {
        assert!(eval(&code, &['a', 'b'], use_dfs).unwrap());
        assert!(eval(&code, &['b'], use_dfs).unwrap());
        assert!(!eval(&code, &['a'], use_dfs).unwrap());
        assert!(!eval(&code, &[], use_dfs).unwrap());
    }
}
