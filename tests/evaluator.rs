use minilisp::ast::ASTParser;
use minilisp::function::{get_internal_functions, lisp_add, lisp_println, lisp_to_string};
use minilisp::internal::{
    Builtin, Context, LispExpr, LispFunction, LispList, LispString, LispSymbol, LispValue,
};
use minilisp::interpreter::{EvalError, Evaluator};
use minilisp::number::LispNumber;
use minilisp::token::{Location, Tokenizer};

fn evaluator_for(src: &str) -> Evaluator {
    let mut t = Tokenizer::new(src.to_string());
    t.try_parse_all().unwrap();
    let mut p = ASTParser::new(t.tokens);
    p.try_parse_all().unwrap();
    Evaluator::new(p.roots)
}

/// Evaluates every form and returns the last result with what was printed.
fn eval(src: &str) -> (Result<LispExpr, EvalError>, Vec<String>) {
    let mut ev = evaluator_for(src);
    let mut last = Ok(LispExpr::Null);
    while ev.peek().is_some() {
        last = step(&mut ev);
        if last.is_err() {
            break;
        }
    }
    (last, ev.context.output)
}

/// Lowers the next form and evaluates it.
fn step(ev: &mut Evaluator) -> Result<LispExpr, EvalError> {
    let e = ev.try_interpret_next()?;
    ev.evaluate_expr(&e)
}

fn num(mantissa: u64, scale: u32) -> LispExpr {
    LispExpr::Literal(LispValue::Number(LispNumber { mantissa, scale }))
}

fn string(s: &str) -> LispExpr {
    LispExpr::Literal(LispValue::String(LispString { value: s.to_string() }))
}

fn symbol(s: &str) -> LispExpr {
    LispExpr::Literal(LispValue::Symbol(LispSymbol { value: s.to_string() }))
}

fn list(items: Vec<LispExpr>) -> LispExpr {
    LispExpr::Literal(LispValue::List(LispList { value: items }))
}

fn text(r: Result<LispExpr, EvalError>) -> String {
    match r {
        Ok(LispExpr::Literal(LispValue::String(s))) => s.value,
        other => panic!("not a string: {:?}", other),
    }
}

fn number(r: Result<LispExpr, EvalError>) -> LispNumber {
    match r {
        Ok(LispExpr::Literal(LispValue::Number(n))) => n,
        other => panic!("not a number: {:?}", other),
    }
}

#[test]
fn string_builtin_renders_each_kind() {
    let ctx = Context::default();
    assert_eq!(text(lisp_to_string(&ctx, vec![num(35, 1)])), "3.5");
    assert_eq!(text(lisp_to_string(&ctx, vec![symbol("x")])), "'x");
    assert_eq!(text(lisp_to_string(&ctx, vec![list(vec![])])), "()");
    assert_eq!(text(lisp_to_string(&ctx, vec![list(vec![num(1, 0), num(2, 0)])])), "(1, 2)");
    assert_eq!(text(lisp_to_string(&ctx, vec![LispExpr::Null])), "nil");
    assert_eq!(text(lisp_to_string(&ctx, vec![string("hi there")])), "hi there");
}

#[test]
fn string_builtin_renders_numbers_in_shortest_decimal() {
    let ctx = Context::default();
    assert_eq!(text(lisp_to_string(&ctx, vec![num(600, 2)])), "6");
    assert_eq!(text(lisp_to_string(&ctx, vec![num(150, 2)])), "1.5");
    assert_eq!(text(lisp_to_string(&ctx, vec![num(5, 3)])), "0.005");
    assert_eq!(text(lisp_to_string(&ctx, vec![num(0, 0)])), "0");
    assert_eq!(text(lisp_to_string(&ctx, vec![num(120, 0)])), "120");
}

#[test]
fn string_builtin_nests_lists_and_quotes() {
    let ctx = Context::default();
    let nested = list(vec![symbol("a"), list(vec![string("b"), LispExpr::Null]), num(7, 0)]);
    assert_eq!(text(lisp_to_string(&ctx, vec![nested])), "('a, (b, nil), 7)");
    let quoted = LispExpr::Quoted(Box::new(symbol("q")));
    assert_eq!(text(lisp_to_string(&ctx, vec![quoted])), "''q");
}

#[test]
fn string_builtin_errors() {
    let ctx = Context::default();
    let f = LispExpr::Literal(LispValue::Function(LispFunction::Internal {
        name: LispSymbol { value: "f".to_string() },
        args: vec![],
        func: Builtin::Add,
    }));
    assert!(matches!(lisp_to_string(&ctx, vec![f]), Err(EvalError::TypeMismatch)));
    assert!(matches!(lisp_to_string(&ctx, vec![]), Err(EvalError::ArityMismatch)));
    assert!(matches!(
        lisp_to_string(&ctx, vec![num(1, 0), num(2, 0)]),
        Err(EvalError::ArityMismatch)
    ));
}

#[test]
fn string_of_evaluated_forms() {
    assert_eq!(text(eval("(string 3.5)").0), "3.5");
    assert_eq!(text(eval("(string '(1 2))").0), "(1, 2)");
    assert_eq!(text(eval("(string '())").0), "()");
    assert_eq!(text(eval("(string 'x)").0), "'x");
    assert_eq!(text(eval("(string nil)").0), "nil");
}

#[test]
fn addition_sums_numbers() {
    assert_eq!(number(eval("(+ 1 2 3)").0), LispNumber { mantissa: 6, scale: 0 });
    assert_eq!(number(eval("(+ 1.5 2.25)").0), LispNumber { mantissa: 375, scale: 2 });
    assert_eq!(number(eval("(+ 1 (+ 2 3))").0), LispNumber { mantissa: 6, scale: 0 });
}

#[test]
fn addition_errors() {
    assert!(matches!(eval("(+ 1)").0, Err(EvalError::ArityMismatch)));
    assert!(matches!(eval("(+ 1 \"a\")").0, Err(EvalError::TypeMismatch)));
    assert!(matches!(
        eval("(+ 18446744073709551615 1)").0,
        Err(EvalError::NumericOverflow)
    ));
    let ctx = Context::default();
    assert!(matches!(lisp_add(&ctx, vec![num(1, 0), LispExpr::Null]), Err(EvalError::TypeMismatch)));
}

#[test]
fn println_prints_and_returns_nothing() {
    let (r, out) = eval("(println \"Hello, world\")");
    assert!(matches!(r, Ok(LispExpr::Null)));
    assert_eq!(out, vec!["Hello, world".to_string()]);
}

#[test]
fn println_errors() {
    let (r, out) = eval("(println 5)");
    assert!(matches!(r, Err(EvalError::TypeMismatch)));
    assert!(out.is_empty());
    let mut ctx = Context::default();
    assert!(matches!(lisp_println(&mut ctx, vec![]), Err(EvalError::ArityMismatch)));
    assert!(matches!(lisp_println(&mut ctx, vec![string("ok")]), Ok(LispExpr::Null)));
    assert_eq!(ctx.output, vec!["ok".to_string()]);
}

#[test]
fn unbound_symbol_and_nil() {
    assert!(matches!(eval("y").0, Err(EvalError::UnboundSymbol)));
    assert!(matches!(eval("nil").0, Ok(LispExpr::Null)));
}

#[test]
fn quoted_list_is_returned_verbatim() {
    match eval("'(1 2)").0 {
        Ok(LispExpr::Literal(LispValue::List(l))) => {
            assert_eq!(l.value.len(), 2);
            assert!(matches!(&l.value[0], LispExpr::Literal(LispValue::Number(n)) if n.mantissa == 1));
            assert!(matches!(&l.value[1], LispExpr::Literal(LispValue::Number(n)) if n.mantissa == 2));
        }
        other => panic!("unexpected: {:?}", other),
    }
    assert!(matches!(eval("'y").0, Ok(LispExpr::Literal(LispValue::Symbol(s))) if s.value == "y"));
}

#[test]
fn self_evaluating_forms() {
    assert!(matches!(eval("\"s\"").0, Ok(LispExpr::Literal(LispValue::String(s))) if s.value == "s"));
    assert_eq!(number(eval("4.5").0), LispNumber { mantissa: 45, scale: 1 });
    assert!(matches!(eval("()").0, Ok(LispExpr::Literal(LispValue::List(l))) if l.value.is_empty()));
}

#[test]
fn call_errors() {
    assert!(matches!(eval("(foo 1)").0, Err(EvalError::UnknownFunction)));
    assert!(matches!(eval("(1 2)").0, Err(EvalError::UnsupportedForm)));
    assert!(matches!(eval("(foo y)").0, Err(EvalError::UnknownFunction)));
    assert!(matches!(eval("(+ y 1)").0, Err(EvalError::UnboundSymbol)));
}

#[test]
fn arguments_are_reduced_left_to_right_before_the_call() {
    let (r, out) = eval("(+ (println \"a\") (println \"b\"))");
    assert!(matches!(r, Err(EvalError::TypeMismatch)));
    assert_eq!(out, vec!["a".to_string(), "b".to_string()]);
    let (r, out) = eval("(+ (println \"a\") y (println \"b\"))");
    assert!(matches!(r, Err(EvalError::UnboundSymbol)));
    assert_eq!(out, vec!["a".to_string()]);
}

#[test]
fn user_defined_function_binds_parameters() {
    let mut ev = evaluator_for("(double 4) x");
    ev.context.define_function(
        "double".to_string(),
        vec!["x".to_string()],
        LispList { value: vec![symbol("+"), symbol("x"), symbol("x")] },
    );
    assert_eq!(number(step(&mut ev)), LispNumber { mantissa: 8, scale: 0 });
    // The parameter is not visible once the call returns.
    assert!(matches!(step(&mut ev), Err(EvalError::UnboundSymbol)));
}

#[test]
fn user_defined_function_checks_arity() {
    let mut ev = evaluator_for("(double 4 5)");
    ev.context.define_function(
        "double".to_string(),
        vec!["x".to_string()],
        LispList { value: vec![symbol("+"), symbol("x"), symbol("x")] },
    );
    assert!(matches!(step(&mut ev), Err(EvalError::ArityMismatch)));
}

#[test]
fn endless_recursion_exhausts_the_stack() {
    let mut ev = evaluator_for("(forever)");
    ev.context.define_function(
        "forever".to_string(),
        vec![],
        LispList { value: vec![symbol("forever")] },
    );
    assert!(matches!(step(&mut ev), Err(EvalError::StackExhausted)));
}

#[test]
fn builtins_come_first_in_lookup() {
    let fns = get_internal_functions();
    assert_eq!(fns.len(), 3);
    let mut ev = evaluator_for("(+ 1 2)");
    ev.context.define_function("+".to_string(), vec![], LispList { value: vec![] });
    assert_eq!(number(step(&mut ev)), LispNumber { mantissa: 3, scale: 0 });
}

#[test]
fn run_stops_at_first_error_with_its_location() {
    let mut ev = evaluator_for("(println \"one\")\n  (+ 1)\n(println \"two\")");
    let r = ev.run();
    assert_eq!(r, Err((Location { row: 1, col: 2 }, EvalError::ArityMismatch)));
    assert_eq!(ev.context.output, vec!["one".to_string()]);
}

#[test]
fn run_evaluates_all_forms() {
    let mut ev = evaluator_for("(println \"a\") (println (string (+ 0.5 0.25)))");
    assert_eq!(ev.run(), Ok(()));
    assert_eq!(ev.context.output, vec!["a".to_string(), "0.75".to_string()]);
}

#[test]
fn evaluate_expr_reduces_a_built_expression() {
    let mut ev = evaluator_for("");
    let e = list(vec![symbol("+"), num(2, 0), num(3, 1)]);
    assert_eq!(number(ev.evaluate_expr(&e)), LispNumber { mantissa: 23, scale: 1 });
    assert!(ev.next().is_none());
}

#[test]
fn try_interpret_next_lowers_without_reducing() {
    let mut ev = evaluator_for("y (println \"x\") '(1 2)");
    assert!(matches!(ev.try_interpret_next(), Ok(LispExpr::Literal(LispValue::Symbol(s))) if s.value == "y"));
    match ev.try_interpret_next() {
        Ok(LispExpr::Literal(LispValue::List(l))) => {
            assert_eq!(l.value.len(), 2);
            assert!(matches!(&l.value[0], LispExpr::Literal(LispValue::Symbol(s)) if s.value == "println"));
            assert!(matches!(&l.value[1], LispExpr::Literal(LispValue::String(s)) if s.value == "x"));
        }
        other => panic!("unexpected: {:?}", other),
    }
    assert!(ev.context.output.is_empty());
    let quoted = ev.try_interpret_next().unwrap();
    match &quoted {
        LispExpr::Quoted(inner) => {
            assert!(matches!(&**inner, LispExpr::Literal(LispValue::List(l)) if l.value.len() == 2))
        }
        other => panic!("unexpected: {:?}", other),
    }
    assert!(matches!(ev.evaluate_expr(&quoted), Ok(LispExpr::Literal(LispValue::List(l))) if l.value.len() == 2));
    assert!(matches!(ev.try_interpret_next(), Err(EvalError::EndOfInput)));
    assert_eq!(ev.pos, 3);
}

#[test]
fn deeply_nested_calls_exhaust_the_stack() {
    let depth = 300;
    let src = format!("{}1{}", "(+ 1 ".repeat(depth), ")".repeat(depth));
    assert!(matches!(eval(&src).0, Err(EvalError::StackExhausted)));
    let src = format!("{}1{}", "(+ 1 ".repeat(100), ")".repeat(100));
    assert_eq!(number(eval(&src).0), LispNumber { mantissa: 101, scale: 0 });
}
