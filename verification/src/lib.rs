//! A calculator for arithmetic expressions, verified with Verus.
//!
//! A text is lexed into tokens ([`lex`]), the tokens are parsed into one
//! syntax tree for each statement ([`parse`]), and the trees are evaluated
//! against an environment of named numbers and named functions
//! ([`eval`]). [`calculate`] runs the three stages in a row.
//!
//! The library fixes what a text means up to the numbers themselves: the
//! number type and its arithmetic are supplied by the caller, and every
//! contract about values is stated over what that arithmetic can return.

pub mod eval;
pub mod lex;
pub mod parse;

use crate::eval::{first_failure, yield_all, yields, EvalError, Evaluator, Operation};
use crate::lex::error::Error;
use crate::lex::scan::tokens;
use crate::lex::{incomplete_operator, Lexer};
use crate::parse::ast::{trees, Tree};
use crate::parse::grammar::program;
use crate::parse::stream::Stream;
use crate::parse::{ParseError, Parser};
use vstd::prelude::*;

verus! {

/// The stage at which a calculation failed, and how.
#[derive(Debug)]
pub enum Failure {
    /// The text holds an operator character where no operator stands.
    Lex(Error),
    /// The tokens are not a program.
    Parse(ParseError),
    /// A statement names what the environment does not bind.
    Eval(EvalError),
}

impl Failure {
    /// The words of the failure.
    pub open spec fn text(self) -> Seq<char> {
        match self {
            Failure::Lex(e) => e@,
            Failure::Parse(e) => e.text(),
            Failure::Eval(e) => e.text(),
        }
    }

    /// The failure, told in words.
    pub fn message(&self) -> (text: String)
        ensures
            text@ == self.text(),
    {
        match self {
            Failure::Lex(e) => e.message(),
            Failure::Parse(e) => e.message(),
            Failure::Eval(e) => e.message(),
        }
    }
}

/// Calculates the statements of the text that `lexer` holds: lexes what
/// is left of the text, parses the tokens into one tree for each statement,
/// and evaluates the trees in order. The first failure ends the
/// calculation, and no value is handed out then.
pub fn calculate<N: Copy, A: Fn(Operation<N>) -> N, F: Fn(Vec<N>) -> N>(
    lexer: &mut Lexer<'_>,
    evaluator: &Evaluator<N, A, F>,
) -> (result: Result<Vec<N>, Failure>)
    ensures
        final(lexer).operators() == old(lexer).operators(),
        match tokens(old(lexer).operators(), old(lexer).remaining()) {
            None => result matches Err(Failure::Lex(e)) && e@ == incomplete_operator(),
            Some(lexemes) => match program(lexemes, 0) {
                Err(e) => result matches Err(Failure::Parse(f)) && f == e,
                Ok(forest) => match first_failure(evaluator.environment(), forest, 0) {
                    Some(e) => result matches Err(Failure::Eval(f)) && f == e,
                    None => result matches Ok(values) && yield_all(
                        evaluator.environment(),
                        forest,
                        values@,
                    ),
                },
            },
        },
{
    let ghost table = lexer.operators();
    let ghost text = lexer.remaining();
    let lexemes = match lexer.lex() {
        Ok(lexemes) => lexemes,
        Err(e) => {
            return Err(Failure::Lex(e));
        },
    };
    let mut parser = Parser::new(Stream::new(lexemes));
    let forest = match parser.parse() {
        Ok(forest) => forest,
        Err(e) => {
            return Err(Failure::Parse(e));
        },
    };
    let ghost expected = trees(forest@);
    let mut results: Vec<N> = Vec::new();
    let mut i: usize = 0;
    while i < forest.len()
        invariant
            i <= forest.len(),
            expected == trees(forest@),
            table == old(lexer).operators(),
            text == old(lexer).remaining(),
            lexer.operators() == table,
            tokens(table, text) matches Some(lexemes) && program(lexemes, 0) == Ok::<
                Seq<Tree>,
                ParseError,
            >(expected),
            results@.len() == i,
            forall|j: int|
                0 <= j < i ==> yields(evaluator.environment(), #[trigger] expected[j], results@[j]),
            first_failure(evaluator.environment(), expected, 0) == first_failure(
                evaluator.environment(),
                expected,
                i as nat,
            ),
        decreases forest.len() - i,
    {
        match evaluator.evaluate(&forest[i]) {
            Ok(value) => results.push(value),
            Err(e) => {
                return Err(Failure::Eval(e));
            },
        }
        i += 1;
    }
    Ok(results)
}

} // verus!
