//! The node that wraps expressions and statements, and the parser's entry point.

use vstd::prelude::*;
use std::rc::Rc;
use crate::error::MovaError;
use crate::lexer::{token_views, Token};
use crate::parser::expression::{Expression, ExpressionView};
use crate::parser::grammar::{
    is_failure, lemma_upcoming, parse_program_spec, parse_spec, upcoming,
};
use crate::parser::statement::parse_statement;
use crate::text::reversed;
use crate::parser::statement::{Statement, StatementView};

verus! {

/// An expression or a statement.
#[derive(Clone, Debug, PartialEq, Eq)]
pub enum Node {
    Expression(Rc<Expression>),
    Statement(Rc<Statement>),
}

/// The mathematical value of a [`Node`].
pub enum NodeView {
    Expression(Box<ExpressionView>),
    Statement(Box<StatementView>),
}

impl Node {
    /// The node as a mathematical value.
    pub open spec fn view(&self) -> NodeView
        decreases self,
    {
        match self {
            Node::Expression(e) => NodeView::Expression(Box::new(e.view())),
            Node::Statement(s) => NodeView::Statement(Box::new(s.view())),
        }
    }
}

/// The values of a sequence of nodes.
pub open spec fn node_views(nodes: Seq<Node>) -> Seq<NodeView> {
    nodes.map_values(|n: Node| n@)
}

#[verifier::loop_isolation(false)]
/// Parses the tokens of a source text into a program.
///
/// The result is a [`Node::Expression`] that holds an [`Expression::Program`] with the
/// statements in source order, or the parser error of the first statement that is ill formed.
pub fn parse(tokens: Vec<Token>) -> (result: Result<Node, MovaError>)
    ensures
        match result {
            Ok(node) => parse_spec(token_views(tokens@)) == Ok::<NodeView, Seq<char>>(node@),
            Err(error) => is_failure(error, parse_spec(token_views(tokens@))),
        },
{
    let ghost all = token_views(tokens@);
    let mut stack = reversed(tokens);
    assert(upcoming(stack@) =~= all);
    let mut body: Vec<Node> = Vec::new();
    assert(node_views(body@) =~= Seq::<NodeView>::empty());
    while stack.len() != 0
        invariant
            parse_program_spec(all, Seq::empty()) == parse_program_spec(
                upcoming(stack@),
                node_views(body@),
            ),
        decreases stack.len(),
    {
        proof {
            lemma_upcoming(stack@);
        }
        match parse_statement(&mut stack) {
            Ok(node) => {
                proof {
                    lemma_upcoming(stack@);
                    assert(node_views(body@.push(node)) =~= node_views(body@).push(node@));
                }
                body.push(node);
            },
            Err(error) => {
                return Err(error);
            },
        }
    }
    proof {
        lemma_upcoming(stack@);
    }
    let body = Rc::new(body);
    proof {
        Expression::lemma_block_view(body);
    }
    Ok(Node::Expression(Rc::new(Expression::Program(body))))
}

} // verus!
