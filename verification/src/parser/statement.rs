//! Statements: `let` and `fn`.

use vstd::prelude::*;
use std::rc::Rc;
use crate::error::MovaError;
use crate::lexer::Token;
use crate::parser::expression::{parse_expression, Expression, ExpressionView};
use crate::parser::grammar::{
    is_failure, is_operator, lemma_upcoming, parse_function_spec, parse_parameters_spec,
    parse_statement_spec, parse_variable_declaration_spec, parser_error, upcoming, Parsed,
};
use crate::parser::node::{Node, NodeView};
use crate::text::same_text;

verus! {

/// A declaration. A statement yields no value.
#[derive(Clone, Debug, PartialEq, Eq)]
pub enum Statement {
    /// `let name = value`.
    Variable { name: Rc<String>, value: Rc<Expression> },
    /// `fn name(parameters) = body`.
    Function { name: Rc<String>, parameters: Rc<Vec<String>>, body: Rc<Expression> },
}

/// The mathematical value of a [`Statement`].
pub enum StatementView {
    Variable { name: Seq<char>, value: Box<ExpressionView> },
    Function { name: Seq<char>, parameters: Seq<Seq<char>>, body: Box<ExpressionView> },
}

/// The texts of a sequence of strings.
pub open spec fn texts(names: Seq<String>) -> Seq<Seq<char>> {
    names.map_values(|s: String| s@)
}

impl Statement {
    /// The statement as a mathematical value.
    pub open spec fn view(&self) -> StatementView
        decreases self,
    {
        match self {
            Statement::Variable { name, value } => StatementView::Variable {
                name: name@,
                value: Box::new(value.view()),
            },
            Statement::Function { name, parameters, body } => StatementView::Function {
                name: name@,
                parameters: texts(parameters@),
                body: Box::new(body.view()),
            },
        }
    }
}

/// Whether `result`, with `stack` left to read, is the outcome `parsed`.
pub open spec fn node_parsed(result: Result<Node, MovaError>, stack: Seq<Token>, parsed: Parsed<NodeView>)
    -> bool {
    &&& upcoming(stack) == parsed.rest
    &&& match result {
        Ok(node) => parsed.result == Ok::<NodeView, Seq<char>>(node@),
        Err(error) => is_failure(error, parsed.result),
    }
}

/// Reads `let name = value`; the keyword is on top of `tokens`.
fn parse_variable_declaration(tokens: &mut Vec<Token>) -> (result: Result<Node, MovaError>)
    requires
        old(tokens).len() > 0,
    ensures
        node_parsed(
            result,
            final(tokens)@,
            parse_variable_declaration_spec(upcoming(old(tokens)@)),
        ),
        final(tokens).len() < old(tokens).len(),
    decreases old(tokens).len(), 0int,
{
    let ghost all = upcoming(tokens@);
    proof {
        lemma_upcoming(tokens@);
    }
    tokens.pop();
    proof {
        lemma_upcoming(tokens@);
    }
    let popped = tokens.pop();
    assert(upcoming(tokens@) =~= all.skip(2) || all.len() == 1);
    let name = match popped {
        Some(Token::Identifier(name)) => Rc::new(name),
        Some(token) => {
            let description = token.describe();
            return Err(
                parser_error(
                    String::from_str("Expected identifier but got: ").concat(
                        description.as_str(),
                    ),
                ),
            );
        },
        None => {
            return Err(
                parser_error(String::from_str("Expected identifier after `let` keyword")),
            );
        },
    };
    proof {
        lemma_upcoming(tokens@);
    }
    let popped = tokens.pop();
    assert(upcoming(tokens@) =~= all.skip(3) || all.len() == 2);
    match popped {
        Some(Token::Assignment) => match parse_expression(tokens) {
            Ok(value) => Ok(
                Node::Statement(Rc::new(Statement::Variable { name, value: Rc::new(value) })),
            ),
            Err(error) => Err(error),
        },
        Some(token) => {
            let description = token.describe();
            Err(
                parser_error(
                    String::from_str("Unexpected token found: ").concat(description.as_str()),
                ),
            )
        },
        None => Err(parser_error(String::from_str("Expected assignment after identifier"))),
    }
}

/// Reads `fn name(parameters) = body`; the keyword is on top of `tokens`.
#[verifier::loop_isolation(false)]
fn parse_function(tokens: &mut Vec<Token>) -> (result: Result<Node, MovaError>)
    requires
        old(tokens).len() > 0,
    ensures
        node_parsed(result, final(tokens)@, parse_function_spec(upcoming(old(tokens)@))),
        final(tokens).len() < old(tokens).len(),
    decreases old(tokens).len(), 0int,
{
    let ghost all = upcoming(tokens@);
    proof {
        lemma_upcoming(tokens@);
    }
    tokens.pop();
    proof {
        lemma_upcoming(tokens@);
    }
    let popped = tokens.pop();
    assert(upcoming(tokens@) =~= all.skip(2) || all.len() == 1);
    let name = match popped {
        Some(Token::Identifier(name)) => Rc::new(name),
        _ => {
            return Err(
                parser_error(String::from_str("Expected function name after `fn` keyword")),
            );
        },
    };
    proof {
        lemma_upcoming(tokens@);
    }
    let popped = tokens.pop();
    assert(upcoming(tokens@) =~= all.skip(3) || all.len() == 2);
    let opened = match popped {
        Some(token) => is_operator(&token, "("),
        None => false,
    };
    if !opened {
        return Err(
            parser_error(String::from_str("Expected parameter list after function name")),
        );
    }
    let mut parameters: Vec<String> = Vec::new();
    assert(texts(parameters@) =~= Seq::<Seq<char>>::empty());
    let ghost list = upcoming(tokens@);
    loop
        invariant
            tokens.len() + 3 <= old(tokens).len(),
            upcoming(tokens@).len() <= list.len(),
            parse_parameters_spec(list, Seq::empty()) == parse_parameters_spec(
                upcoming(tokens@),
                texts(parameters@),
            ),
        decreases tokens.len(),
    {
        proof {
            lemma_upcoming(tokens@);
        }
        if tokens.len() == 0 {
            return Err(parser_error(String::from_str("Expected parameter list to be closed")));
        }
        if is_operator(&tokens[tokens.len() - 1], ")") {
            break ;
        }
        if let Some(Token::Identifier(parameter)) = tokens.pop() {
            proof {
                assert(texts(parameters@.push(parameter)) =~= texts(parameters@).push(
                    parameter@,
                ));
            }
            parameters.push(parameter);
        }
    }
    let ghost closing = upcoming(tokens@);
    proof {
        lemma_upcoming(tokens@);
    }
    tokens.pop();
    proof {
        lemma_upcoming(tokens@);
    }
    let popped = tokens.pop();
    assert(upcoming(tokens@) =~= closing.skip(2) || closing.len() == 1);
    assert(closing.len() == 1 ==> upcoming(tokens@) =~= closing.skip(1));
    match popped {
        Some(Token::Assignment) => {},
        _ => {
            return Err(
                parser_error(String::from_str("Expected assignment before function body")),
            );
        },
    }
    match parse_expression(tokens) {
        Ok(body) => Ok(
            Node::Statement(
                Rc::new(
                    Statement::Function {
                        name,
                        parameters: Rc::new(parameters),
                        body: Rc::new(body),
                    },
                ),
            ),
        ),
        Err(error) => Err(error),
    }
}

/// Reads a statement from the top of `tokens`: a `let`, a `fn`, or an expression.
///
/// `tokens` is a stack with the next token on top. What is read is taken from it, also where
/// the parse fails.
pub fn parse_statement(tokens: &mut Vec<Token>) -> (result: Result<Node, MovaError>)
    ensures
        node_parsed(result, final(tokens)@, parse_statement_spec(upcoming(old(tokens)@))),
        final(tokens).len() <= old(tokens).len(),
        result is Ok ==> final(tokens).len() < old(tokens).len(),
    decreases old(tokens).len(), 5int,
{
    proof {
        lemma_upcoming(tokens@);
    }
    if tokens.len() == 0 {
        return Err(parser_error(String::from_str("Unexpected end of input")));
    }
    let keyword: u8 = match &tokens[tokens.len() - 1] {
        Token::Keyword(keyword) => {
            if same_text(keyword.as_str(), "let") {
                1
            } else if same_text(keyword.as_str(), "fn") {
                2
            } else {
                return Err(
                    parser_error(
                        String::from_str("Unexpected keyword found: ").concat(keyword.as_str()),
                    ),
                );
            }
        },
        _ => 0,
    };
    if keyword == 1 {
        parse_variable_declaration(tokens)
    } else if keyword == 2 {
        parse_function(tokens)
    } else {
        match parse_expression(tokens) {
            Ok(expression) => Ok(Node::Expression(Rc::new(expression))),
            Err(error) => Err(error),
        }
    }
}

} // verus!
