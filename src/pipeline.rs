//! The whole pipeline on a source text: lexing, parsing and evaluation.
use vstd::prelude::*;

use crate::ast::{node_views, parse_all, ASTParser, ASTParserError};
use crate::function::{builtin_table, initial_bindings};
use crate::internal::line_views;
use crate::interpreter::{run_forms, EvalError, Evaluator};
use crate::token::{lex, loc_at, token_views, LexerError, Location, Tokenizer};

verus! {

/// The first error of a run, with the stage that found it and where.
#[derive(Clone, Copy, Debug, PartialEq, Eq, Structural)]
pub enum Diagnostic {
    Lex(Location, LexerError),
    Parse(Location, ASTParserError),
    Eval(Location, EvalError),
}

/// What running the source `s` prints, and its first error.
pub open spec fn run_text(s: Seq<char>) -> (Seq<Seq<char>>, Result<(), Diagnostic>) {
    match lex(s, 0) {
        Err((q, e)) => (Seq::empty(), Err(Diagnostic::Lex(loc_at(s, q), e))),
        Ok(toks) => match parse_all(toks, 0) {
            Err((loc, e)) => (Seq::empty(), Err(Diagnostic::Parse(loc, e))),
            Ok(forms) => {
                let (out, r) = run_forms(builtin_table(), initial_bindings(), forms, 0);
                (
                    out,
                    match r {
                        Ok(()) => Ok(()),
                        Err((loc, e)) => Err(Diagnostic::Eval(loc, e)),
                    },
                )
            },
        },
    }
}

/// Lexes, parses and evaluates `source` in the initial environment. Returns
/// the lines printed, in order, and the first error if there is one.
pub fn run_source(source: String) -> (r: (Vec<String>, Result<(), Diagnostic>))
    ensures
        line_views(r.0@) == run_text(source@).0,
        r.1 == run_text(source@).1,
{
    let mut tokenizer = Tokenizer::new(source);
    match tokenizer.try_parse_all() {
        Err((loc, e)) => {
            return (Vec::new(), Err(Diagnostic::Lex(loc, e)));
        },
        Ok(()) => {},
    }
    proof {
        let toks = lex(source@, 0)->Ok_0;
        assert(token_views(tokenizer.tokens@) =~= toks);
    }
    let mut parser = ASTParser::new(tokenizer.tokens);
    match parser.try_parse_all() {
        Err((loc, e)) => {
            return (Vec::new(), Err(Diagnostic::Parse(loc, e)));
        },
        Ok(()) => {},
    }
    proof {
        let forms = parse_all(token_views(parser.input@), 0)->Ok_0;
        assert(node_views(parser.roots@) =~= forms);
    }
    let mut evaluator = Evaluator::new(parser.roots);
    let r = evaluator.run();
    proof {
        assert(line_views(evaluator.context.output@) =~= run_text(source@).0);
    }
    let result = match r {
        Ok(()) => Ok(()),
        Err((loc, e)) => Err(Diagnostic::Eval(loc, e)),
    };
    (evaluator.context.output, result)
}

} // verus!
