//! Writing a syntax tree as text, for messages: each node as the name of its kind and what it
//! holds.

use vstd::prelude::*;
use crate::parser::expression::{expression_views, Expression, ExpressionView};
use crate::parser::node::{node_views, Node, NodeView};
use crate::parser::statement::{Statement, StatementView};
use crate::text::{
    integer, integer_text, quoted, quoted_list, quoted_list_text, quoted_text,
};

verus! {

/// An expression as text.
pub open spec fn describe_expression(expression: ExpressionView) -> Seq<char>
    decreases expression, 0int,
{
    match expression {
        ExpressionView::Number(n) => "Number("@ + integer(n as int) + ")"@,
        ExpressionView::Boolean(b) => if b {
            "Boolean(true)"@
        } else {
            "Boolean(false)"@
        },
        ExpressionView::Identifier(name) => "Identifier("@ + quoted(name) + ")"@,
        ExpressionView::Reference(name) => "Reference("@ + quoted(name) + ")"@,
        ExpressionView::BinaryExpression { operator, left, right } => {
            "BinaryExpression { operator: "@ + quoted(operator) + ", left: "@
                + describe_expression(*left) + ", right: "@ + describe_expression(*right) + " }"@
        },
        ExpressionView::Call { name, arguments } => "Call { name: "@ + quoted(name)
            + ", arguments: ["@ + describe_expressions(arguments, arguments.len() as int) + "] }"@,
        ExpressionView::Block(nodes) => "Block(["@ + describe_nodes(nodes, nodes.len() as int)
            + "])"@,
        ExpressionView::Program(nodes) => "Program(["@ + describe_nodes(nodes, nodes.len() as int)
            + "])"@,
    }
}

/// The first `upto` of `expressions` as text, with a comma and a space between neighbours.
pub open spec fn describe_expressions(expressions: Seq<ExpressionView>, upto: int) -> Seq<char>
    decreases expressions, upto,
{
    if upto <= 0 || upto > expressions.len() {
        Seq::empty()
    } else if upto == 1 {
        describe_expression(expressions[0])
    } else {
        describe_expressions(expressions, upto - 1) + ", "@ + describe_expression(
            expressions[upto - 1],
        )
    }
}

/// A node as text.
pub open spec fn describe_node(node: NodeView) -> Seq<char>
    decreases node, 0int,
{
    match node {
        NodeView::Expression(expression) => "Expression("@ + describe_expression(*expression)
            + ")"@,
        NodeView::Statement(statement) => "Statement("@ + describe_statement(*statement) + ")"@,
    }
}

/// The first `upto` of `nodes` as text, with a comma and a space between neighbours.
pub open spec fn describe_nodes(nodes: Seq<NodeView>, upto: int) -> Seq<char>
    decreases nodes, upto,
{
    if upto <= 0 || upto > nodes.len() {
        Seq::empty()
    } else if upto == 1 {
        describe_node(nodes[0])
    } else {
        describe_nodes(nodes, upto - 1) + ", "@ + describe_node(nodes[upto - 1])
    }
}

/// A statement as text.
pub open spec fn describe_statement(statement: StatementView) -> Seq<char>
    decreases statement, 0int,
{
    match statement {
        StatementView::Variable { name, value } => "Variable { name: "@ + quoted(name)
            + ", value: "@ + describe_expression(*value) + " }"@,
        StatementView::Function { name, parameters, body } => "Function { name: "@ + quoted(name)
            + ", parameters: ["@ + quoted_list(parameters, parameters.len() as int) + "], body: "@
            + describe_expression(*body) + " }"@,
    }
}

/// Writes nodes as text, with a comma and a space between neighbours.
#[verifier::loop_isolation(false)]
fn describe_all(nodes: &Vec<Node>) -> (text: String)
    ensures
        text@ == describe_nodes(node_views(nodes@), nodes.len() as int),
    decreases nodes, nodes.len() + 1,
{
    let ghost views = node_views(nodes@);
    let mut text = String::new();
    let mut i: usize = 0;
    while i < nodes.len()
        invariant
            i <= nodes.len(),
            text@ == describe_nodes(views, i as int),
        decreases nodes.len() - i,
    {
        let item = nodes[i].describe();
        if i > 0 {
            text.append(", ");
            text.append(item.as_str());
        } else {
            text.append(item.as_str());
            assert(text@ =~= describe_node(views[0]));
        }
        i = i + 1;
    }
    text
}

impl Expression {
    /// The expression as text, for messages.
    #[verifier::loop_isolation(false)]
    pub fn describe(&self) -> (text: String)
        ensures
            text@ == describe_expression(self@),
        decreases self, 0int,
    {
        match self {
            Expression::Number(n) => {
                let number = integer_text(*n);
                String::from_str("Number(").concat(number.as_str()).concat(")")
            },
            Expression::Boolean(b) => if *b {
                String::from_str("Boolean(true)")
            } else {
                String::from_str("Boolean(false)")
            },
            Expression::Identifier(name) => {
                let name = quoted_text(name.as_str());
                String::from_str("Identifier(").concat(name.as_str()).concat(")")
            },
            Expression::Reference(name) => {
                let name = quoted_text(name.as_str());
                String::from_str("Reference(").concat(name.as_str()).concat(")")
            },
            Expression::BinaryExpression { operator, left, right } => {
                let operator = quoted_text(operator.as_str());
                let left = left.describe();
                let right = right.describe();
                String::from_str("BinaryExpression { operator: ").concat(
                    operator.as_str(),
                ).concat(", left: ").concat(left.as_str()).concat(", right: ").concat(
                    right.as_str(),
                ).concat(" }")
            },
            Expression::Call { name, arguments } => {
                proof {
                    Expression::lemma_call_view(*name, *arguments);
                }
                let ghost views = expression_views(arguments@);
                let name = quoted_text(name.as_str());
                let mut list = String::new();
                let mut i: usize = 0;
                while i < arguments.len()
                    invariant
                        i <= arguments.len(),
                        list@ == describe_expressions(views, i as int),
                    decreases arguments.len() - i,
                {
                    let item = arguments[i].describe();
                    if i > 0 {
                        list.append(", ");
                        list.append(item.as_str());
                    } else {
                        list.append(item.as_str());
                        assert(list@ =~= describe_expression(views[0]));
                    }
                    i = i + 1;
                }
                String::from_str("Call { name: ").concat(name.as_str()).concat(
                    ", arguments: [",
                ).concat(list.as_str()).concat("] }")
            },
            Expression::Block(nodes) => {
                proof {
                    Expression::lemma_block_view(*nodes);
                }
                let list = describe_all(nodes);
                String::from_str("Block([").concat(list.as_str()).concat("])")
            },
            Expression::Program(nodes) => {
                proof {
                    Expression::lemma_block_view(*nodes);
                }
                let list = describe_all(nodes);
                String::from_str("Program([").concat(list.as_str()).concat("])")
            },
        }
    }
}

impl Node {
    /// The node as text, for messages.
    pub fn describe(&self) -> (text: String)
        ensures
            text@ == describe_node(self@),
        decreases self, 0int,
    {
        match self {
            Node::Expression(expression) => {
                let inner = expression.describe();
                String::from_str("Expression(").concat(inner.as_str()).concat(")")
            },
            Node::Statement(statement) => {
                let inner = statement.describe();
                String::from_str("Statement(").concat(inner.as_str()).concat(")")
            },
        }
    }
}

impl Statement {
    /// The statement as text, for messages.
    pub fn describe(&self) -> (text: String)
        ensures
            text@ == describe_statement(self@),
        decreases self, 0int,
    {
        match self {
            Statement::Variable { name, value } => {
                let name = quoted_text(name.as_str());
                let value = value.describe();
                String::from_str("Variable { name: ").concat(name.as_str()).concat(
                    ", value: ",
                ).concat(value.as_str()).concat(" }")
            },
            Statement::Function { name, parameters, body } => {
                let name = quoted_text(name.as_str());
                let list = quoted_list_text(parameters);
                let body = body.describe();
                String::from_str("Function { name: ").concat(name.as_str()).concat(
                    ", parameters: [",
                ).concat(list.as_str()).concat("], body: ").concat(body.as_str()).concat(" }")
            },
        }
    }
}

} // verus!
