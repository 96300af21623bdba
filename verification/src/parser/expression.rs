//! Expressions, and the precedence-climbing parser that reads them.

use vstd::prelude::*;
use std::rc::Rc;
use crate::error::MovaError;
use crate::lexer::Token;
use crate::parser::grammar::{
    infix_binding_power, is_failure, is_operator, is_special, done, lemma_upcoming,
    parse_arguments_spec, parse_binary_expression_spec, parse_block_items_spec,
    parse_block_spec, parse_call_spec, parse_expression_spec, parse_operators_spec,
    parser_error, postfix_binding_power, upcoming, Parsed,
};
use crate::parser::node::{node_views, Node, NodeView};
use crate::parser::statement::parse_statement;
use crate::text::{read_number, same_text};

verus! {

/// An expression of the language. A tree is not changed once it is parsed, and its parts are
/// shared handles, so that copying a fragment is cheap.
#[derive(Clone, Debug, PartialEq, Eq)]
pub enum Expression {
    Number(i32),
    Boolean(bool),
    /// A read of the binding with this name.
    Identifier(Rc<String>),
    /// A borrow of the binding with this name, written `name&`.
    Reference(Rc<String>),
    BinaryExpression { operator: Rc<String>, left: Rc<Expression>, right: Rc<Expression> },
    Call { name: Rc<String>, arguments: Rc<Vec<Expression>> },
    /// `{ ... }`: evaluated in a scope of its own.
    Block(Rc<Vec<Node>>),
    /// A whole source text: evaluated in the scope it is given.
    Program(Rc<Vec<Node>>),
}

/// The mathematical value of an [`Expression`].
pub enum ExpressionView {
    Number(i32),
    Boolean(bool),
    Identifier(Seq<char>),
    Reference(Seq<char>),
    BinaryExpression { operator: Seq<char>, left: Box<ExpressionView>, right: Box<ExpressionView> },
    Call { name: Seq<char>, arguments: Seq<ExpressionView> },
    Block(Seq<NodeView>),
    Program(Seq<NodeView>),
}

impl Expression {
    /// The expression as a mathematical value.
    pub open spec fn view(&self) -> ExpressionView
        decreases self,
    {
        match self {
            Expression::Number(n) => ExpressionView::Number(*n),
            Expression::Boolean(b) => ExpressionView::Boolean(*b),
            Expression::Identifier(name) => ExpressionView::Identifier(name@),
            Expression::Reference(name) => ExpressionView::Reference(name@),
            Expression::BinaryExpression { operator, left, right } => {
                ExpressionView::BinaryExpression {
                    operator: operator@,
                    left: Box::new(left.view()),
                    right: Box::new(right.view()),
                }
            },
            Expression::Call { name, arguments } => ExpressionView::Call {
                name: name@,
                arguments: Seq::new(
                    arguments.len() as nat,
                    |i: int|
                        if 0 <= i < arguments.len() {
                            arguments[i].view()
                        } else {
                            ExpressionView::Boolean(false)
                        },
                ),
            },
            Expression::Block(nodes) => ExpressionView::Block(
                Seq::new(
                    nodes.len() as nat,
                    |i: int|
                        if 0 <= i < nodes.len() {
                            nodes[i].view()
                        } else {
                            NodeView::Expression(Box::new(ExpressionView::Boolean(false)))
                        },
                ),
            ),
            Expression::Program(nodes) => ExpressionView::Program(
                Seq::new(
                    nodes.len() as nat,
                    |i: int|
                        if 0 <= i < nodes.len() {
                            nodes[i].view()
                        } else {
                            NodeView::Expression(Box::new(ExpressionView::Boolean(false)))
                        },
                ),
            ),
        }
    }
}

/// The values of a sequence of expressions.
pub open spec fn expression_views(expressions: Seq<Expression>) -> Seq<ExpressionView> {
    expressions.map_values(|e: Expression| e@)
}

impl Expression {
    /// A call holds the values of its arguments, in order.
    pub proof fn lemma_call_view(name: Rc<String>, arguments: Rc<Vec<Expression>>)
        ensures
            (Expression::Call { name, arguments })@ == (ExpressionView::Call {
                name: name@,
                arguments: expression_views(arguments@),
            }),
    {
        let e = Expression::Call { name, arguments };
        assert(e@->Call_arguments =~= expression_views(arguments@));
    }

    /// A block holds the values of its nodes, in order.
    pub proof fn lemma_block_view(nodes: Rc<Vec<Node>>)
        ensures
            Expression::Block(nodes)@ == ExpressionView::Block(node_views(nodes@)),
            Expression::Program(nodes)@ == ExpressionView::Program(node_views(nodes@)),
    {
        assert(Expression::Block(nodes)@->Block_0 =~= node_views(nodes@));
        assert(Expression::Program(nodes)@->Program_0 =~= node_views(nodes@));
    }
}

/// Whether `result`, with `stack` left to read, is the outcome `parsed`.
pub open spec fn expression_parsed(
    result: Result<Expression, MovaError>,
    stack: Seq<Token>,
    parsed: Parsed<ExpressionView>,
) -> bool {
    &&& upcoming(stack) == parsed.rest
    &&& match result {
        Ok(expression) => parsed.result == Ok::<ExpressionView, Seq<char>>(expression@),
        Err(error) => is_failure(error, parsed.result),
    }
}

/// The binding powers of an infix operator, left and right; `None` for any other text.
fn get_infix_binding_power(operator: &str) -> (powers: Option<(u8, u8)>)
    ensures
        powers == infix_binding_power(operator@),
{
    if same_text(operator, "+") || same_text(operator, "-") {
        Some((3, 4))
    } else if same_text(operator, "*") || same_text(operator, "/") {
        Some((5, 6))
    } else {
        None
    }
}

/// The binding power of a postfix operator; `None` for any other text.
fn get_postfix_binding_power(operator: &str) -> (power: Option<(u8, ())>)
    ensures
        power == postfix_binding_power(operator@),
{
    if same_text(operator, "(") || same_text(operator, "&") {
        Some((2, ()))
    } else {
        None
    }
}

/// Reads the argument list of a call of `left`, whose opening parenthesis is on top of
/// `tokens`, and returns the call.
fn parse_call(tokens: &mut Vec<Token>, left: Expression) -> (result: Result<
    Expression,
    MovaError,
>)
    requires
        old(tokens).len() > 0,
    ensures
        expression_parsed(result, final(tokens)@, parse_call_spec(upcoming(old(tokens)@), left@)),
        final(tokens).len() < old(tokens).len(),
    decreases old(tokens).len(), 0int,
{
    proof {
        lemma_upcoming(tokens@);
    }
    tokens.pop();
    let mut arguments: Vec<Expression> = Vec::new();
    assert(expression_views(arguments@) =~= Seq::<ExpressionView>::empty());
    loop
        invariant_except_break
            parse_arguments_spec(upcoming(old(tokens)@).skip(1), Seq::empty())
                == parse_arguments_spec(upcoming(tokens@), expression_views(arguments@)),
        invariant
            old(tokens).len() > 0,
            tokens.len() < old(tokens).len(),
        ensures
            parse_arguments_spec(upcoming(old(tokens)@).skip(1), Seq::empty()) == done(
                expression_views(arguments@),
                upcoming(tokens@),
            ),
        decreases tokens.len(),
    {
        proof {
            lemma_upcoming(tokens@);
        }
        if tokens.len() == 0 {
            return Err(
                parser_error(
                    String::from_str(
                        "Expected another argument expression or argument list to be closed",
                    ),
                ),
            );
        }
        if is_operator(&tokens[tokens.len() - 1], ")") {
            tokens.pop();
            break ;
        }
        match parse_expression(tokens) {
            Err(error) => {
                return Err(error);
            },
            Ok(argument) => {
                proof {
                    lemma_upcoming(tokens@);
                    assert(expression_views(arguments@.push(argument)) =~= expression_views(
                        arguments@,
                    ).push(argument@));
                }
                arguments.push(argument);
                if tokens.len() == 0 {
                    return Err(
                        parser_error(String::from_str("Expected argument list to be closed")),
                    );
                } else if is_special(&tokens[tokens.len() - 1], ',') {
                    tokens.pop();
                } else if is_operator(&tokens[tokens.len() - 1], ")") {
                } else {
                    return Err(
                        parser_error(
                            String::from_str(
                                "Expected another argument expression or argument list to be closed",
                            ),
                        ),
                    );
                }
            },
        }
    }
    match left {
        Expression::Identifier(name) => {
            let arguments = Rc::new(arguments);
            proof {
                Expression::lemma_call_view(name, arguments);
            }
            Ok(Expression::Call { name, arguments })
        },
        other => {
            let found = other.describe();
            Err(
                parser_error(
                    String::from_str("Expected identifier to be called but found ").concat(
                        found.as_str(),
                    ),
                ),
            )
        },
    }
}

/// Reads a binary expression whose operators bind at least as tightly as `binding_power`.
fn parse_binary_expression(tokens: &mut Vec<Token>, binding_power: u8) -> (result: Result<
    Expression,
    MovaError,
>)
    ensures
        expression_parsed(
            result,
            final(tokens)@,
            parse_binary_expression_spec(upcoming(old(tokens)@), binding_power),
        ),
        final(tokens).len() <= old(tokens).len(),
        result is Ok ==> final(tokens).len() < old(tokens).len(),
    decreases old(tokens).len(), 2int,
{
    proof {
        lemma_upcoming(tokens@);
    }
    let mut left = match tokens.pop() {
        Some(Token::Identifier(name)) => Expression::Identifier(Rc::new(name)),
        Some(Token::Number(text)) => match read_number(text.as_str()) {
            Some(n) => Expression::Number(n),
            None => {
                return Err(
                    parser_error(String::from_str("Invalid number: ").concat(text.as_str())),
                );
            },
        },
        Some(Token::Boolean(b)) => Expression::Boolean(b),
        Some(token) => {
            let description = token.describe();
            return Err(
                parser_error(
                    String::from_str("Unexpected token found: ").concat(description.as_str()),
                ),
            );
        },
        None => {
            return Err(parser_error(String::from_str("Unexpected end of input")));
        },
    };
    loop
        invariant
            tokens.len() < old(tokens).len(),
            parse_binary_expression_spec(upcoming(old(tokens)@), binding_power)
                == parse_operators_spec(upcoming(tokens@), left@, binding_power),
        decreases tokens.len(),
    {
        proof {
            lemma_upcoming(tokens@);
        }
        if tokens.len() == 0 {
            return Ok(left);
        }
        let postfix = match &tokens[tokens.len() - 1] {
            Token::Operator(operator) => get_postfix_binding_power(operator.as_str()),
            _ => {
                return Ok(left);
            },
        };
        let infix = match &tokens[tokens.len() - 1] {
            Token::Operator(operator) => get_infix_binding_power(operator.as_str()),
            _ => None,
        };
        if let Some((power, _)) = postfix {
            if power < binding_power {
                return Ok(left);
            }
            if is_operator(&tokens[tokens.len() - 1], "(") {
                match parse_call(tokens, left) {
                    Ok(called) => {
                        left = called;
                    },
                    Err(error) => {
                        return Err(error);
                    },
                }
            } else {
                match left {
                    Expression::Identifier(name) => {
                        tokens.pop();
                        left = Expression::Reference(name);
                    },
                    other => {
                        let found = other.describe();
                        return Err(
                            parser_error(
                                String::from_str("Unexpected token found: ").concat(
                                    found.as_str(),
                                ),
                            ),
                        );
                    },
                }
            }
        } else if let Some((left_power, right_power)) = infix {
            if left_power < binding_power {
                return Ok(left);
            }
            let operator = match tokens.pop() {
                Some(Token::Operator(operator)) => Rc::new(operator),
                _ => {
                    proof {
                        assert(false);
                    }
                    return Ok(left);
                },
            };
            match parse_binary_expression(tokens, right_power) {
                Ok(right) => {
                    left =
                    Expression::BinaryExpression {
                        operator,
                        left: Rc::new(left),
                        right: Rc::new(right),
                    };
                },
                Err(error) => {
                    return Err(error);
                },
            }
        } else {
            return Ok(left);
        }
    }
}

/// Reads a block where `{` is on top of `tokens`, else a binary expression.
fn parse_block(tokens: &mut Vec<Token>) -> (result: Result<Expression, MovaError>)
    ensures
        expression_parsed(result, final(tokens)@, parse_block_spec(upcoming(old(tokens)@))),
        final(tokens).len() <= old(tokens).len(),
        result is Ok ==> final(tokens).len() < old(tokens).len(),
    decreases old(tokens).len(), 3int,
{
    proof {
        lemma_upcoming(tokens@);
    }
    if tokens.len() == 0 {
        return Err(parser_error(String::from_str("Unexpected end of input")));
    }
    if !is_special(&tokens[tokens.len() - 1], '{') {
        return parse_binary_expression(tokens, 0);
    }
    tokens.pop();
    let mut body: Vec<Node> = Vec::new();
    assert(node_views(body@) =~= Seq::<NodeView>::empty());
    loop
        invariant
            tokens.len() < old(tokens).len(),
            parse_block_spec(upcoming(old(tokens)@)) == parse_block_items_spec(
                upcoming(tokens@),
                node_views(body@),
            ),
        decreases tokens.len(),
    {
        proof {
            lemma_upcoming(tokens@);
        }
        if tokens.len() == 0 {
            return Err(parser_error(String::from_str("Expected block to be closed")));
        }
        if is_special(&tokens[tokens.len() - 1], '}') {
            tokens.pop();
            let body = Rc::new(body);
            proof {
                Expression::lemma_block_view(body);
            }
            return Ok(Expression::Block(body));
        }
        match parse_statement(tokens) {
            Ok(node) => {
                proof {
                    assert(node_views(body@.push(node)) =~= node_views(body@).push(node@));
                }
                body.push(node);
            },
            Err(error) => {
                return Err(error);
            },
        }
    }
}

/// Reads an expression from the top of `tokens`: a block or a binary expression.
///
/// `tokens` is a stack with the next token on top. What is read is taken from it, also where
/// the parse fails.
pub fn parse_expression(tokens: &mut Vec<Token>) -> (result: Result<Expression, MovaError>)
    ensures
        expression_parsed(result, final(tokens)@, parse_expression_spec(upcoming(old(tokens)@))),
        final(tokens).len() <= old(tokens).len(),
        result is Ok ==> final(tokens).len() < old(tokens).len(),
    decreases old(tokens).len(), 4int,
{
    parse_block(tokens)
}

} // verus!
