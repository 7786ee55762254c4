use minilisp::ast::ASTParserError;
use minilisp::interpreter::EvalError;
use minilisp::pipeline::{run_source, Diagnostic};
use minilisp::token::{LexerError, Location};

#[test]
fn hello_world_script() {
    let (out, r) = run_source("(println \"Hello, world\")\n(println (string '(1 2.50 x)))".to_string());
    assert_eq!(r, Ok(()));
    assert_eq!(out, vec!["Hello, world".to_string(), "(1, 2.5, 'x)".to_string()]);
}

#[test]
fn lex_error_is_reported_with_its_stage() {
    let (out, r) = run_source("(println \"a\")\n  @".to_string());
    assert!(out.is_empty());
    assert_eq!(r, Err(Diagnostic::Lex(Location { row: 1, col: 2 }, LexerError::UnrecognizedCharacter)));
}

#[test]
fn parse_error_is_reported_with_its_stage() {
    let (out, r) = run_source("(println \"a\")\n(a (b) c".to_string());
    assert!(out.is_empty());
    assert_eq!(
        r,
        Err(Diagnostic::Parse(Location { row: 1, col: 0 }, ASTParserError::UnmatchedOpenParenthesis))
    );
}

#[test]
fn eval_error_keeps_earlier_output() {
    let (out, r) = run_source("(println \"a\")\n(println 5)\n(println \"b\")".to_string());
    assert_eq!(out, vec!["a".to_string()]);
    assert_eq!(r, Err(Diagnostic::Eval(Location { row: 1, col: 0 }, EvalError::TypeMismatch)));
}

#[test]
fn empty_script_does_nothing() {
    let (out, r) = run_source(String::new());
    assert!(out.is_empty());
    assert_eq!(r, Ok(()));
}
