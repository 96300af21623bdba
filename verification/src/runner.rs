//! Running a source text from start to end.

use vstd::prelude::*;
use crate::error::{ErrorView, MovaError};
use crate::interpreter::data::{Data, DataView};
use crate::interpreter::evaluation::evaluate;
use crate::interpreter::model::ScopeView;
use crate::interpreter::scope::{Scope, DEFAULT_CALL_DEPTH};
use crate::interpreter::semantics::evaluate_spec;
use crate::interpreter::termination::{lemma_program_is_unlimited, node_definitions};
use crate::lexer::{tokenize, tokenize_spec};
use crate::parser::grammar::parse_spec;
use crate::parser::node::{parse, NodeView};

verus! {

/// What `run` returns for the source text `source`: the value of the program, or the first
/// error of lexing, parsing or evaluation.
pub open spec fn run_spec(source: Seq<char>) -> Result<Option<DataView>, ErrorView> {
    match tokenize_spec(source) {
        Err(error) => Err(error),
        Ok(tokens) => match parse_spec(tokens) {
            Err(message) => Err(ErrorView::Parser(message)),
            Ok(program) => match evaluate_spec(
                program,
                ScopeView::root(),
                DEFAULT_CALL_DEPTH as nat,
            ).result {
                Ok(value) => Ok(value),
                Err(message) => Err(ErrorView::Runtime(message)),
            },
        },
    }
}

/// The limit on nested calls that `run` sets plays no part in what it returns: a program
/// that defines no more functions than the machine can count has the same outcome with
/// every limit that is at least the number of its function definitions.
pub proof fn lemma_run_is_unlimited(program: NodeView, depth: nat)
    requires
        node_definitions(program) <= DEFAULT_CALL_DEPTH,
        depth >= node_definitions(program),
    ensures
        evaluate_spec(program, ScopeView::root(), DEFAULT_CALL_DEPTH as nat) == evaluate_spec(
            program,
            ScopeView::root(),
            depth,
        ),
{
    lemma_program_is_unlimited(program, DEFAULT_CALL_DEPTH as nat, depth);
}

/// Whether `result` is the value or the error `expected`.
pub open spec fn run_result(
    result: Result<Option<Data>, MovaError>,
    expected: Result<Option<DataView>, ErrorView>,
) -> bool {
    match result {
        Ok(Some(data)) => expected == Ok::<Option<DataView>, ErrorView>(Some(data@)),
        Ok(None) => expected == Ok::<Option<DataView>, ErrorView>(None),
        Err(error) => expected == Err::<Option<DataView>, ErrorView>(error@),
    }
}

/// Tokenizes, parses and evaluates `input` in the global scope of a fresh store.
pub fn run(input: &str) -> (result: Result<Option<Data>, MovaError>)
    ensures
        run_result(result, run_spec(input@)),
{
    let tokens = match tokenize(input) {
        Ok(tokens) => tokens,
        Err(error) => {
            return Err(error);
        },
    };
    let program = match parse(tokens) {
        Ok(program) => program,
        Err(error) => {
            return Err(error);
        },
    };
    let mut scope = Scope::new(None);
    evaluate(&program, &mut scope)
}

} // verus!
