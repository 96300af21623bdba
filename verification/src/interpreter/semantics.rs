//! What evaluation returns, as functions on the syntax tree and the scope store.
//!
//! Evaluation threads the store through the tree in source order: the left operand before
//! the right one, the arguments of a call before its body, the nodes of a block one after the
//! other. A failure ends it at once. Every value that was in hand then, an operand, an
//! argument, the value of an earlier expression, is dropped, which gives back the reference
//! that it is; and every scope that was entered is closed.
//! The last argument of each function is the number of nested calls that may still be made.

use vstd::prelude::*;
use crate::interpreter::data::DataView;
use crate::interpreter::model::ScopeView;
use crate::parser::expression::ExpressionView;
use crate::parser::node::NodeView;
use crate::parser::statement::StatementView;
use crate::text::decimal;

verus! {

/// The store after a step, and what the step yielded: a value, nothing (a statement, or a
/// block without an expression), or the message of a runtime error.
pub struct Outcome {
    pub scope: ScopeView,
    pub result: Result<Option<DataView>, Seq<char>>,
}

/// The store after the arguments of a call were evaluated, and their values.
pub struct Evaluated {
    pub scope: ScopeView,
    pub result: Result<Seq<DataView>, Seq<char>>,
}

/// The quotient of `left` by `right`, rounded toward zero.
pub open spec fn quotient(left: int, right: int) -> int
    recommends
        right != 0,
{
    if left >= 0 && right > 0 {
        left / right
    } else if left >= 0 {
        -(left / (-right))
    } else if right > 0 {
        -((-left) / right)
    } else {
        (-left) / (-right)
    }
}

/// The 32-bit signed integer that equals `value` modulo 2^32.
pub open spec fn wrapped(value: int) -> i32 {
    if value % 0x1_0000_0000 > 0x7fff_ffff {
        (value % 0x1_0000_0000 - 0x1_0000_0000) as i32
    } else {
        (value % 0x1_0000_0000) as i32
    }
}

/// The message for a quotient whose divisor is zero.
pub open spec fn division_by_zero() -> Seq<char> {
    "Division by zero"@
}

/// The message for an operator that does not apply to its operands.
pub open spec fn unexpected_operator(operator: Seq<char>, left: DataView, right: DataView) -> Seq<
    char,
> {
    "Unexpected operator '"@ + operator + "' for operands '"@ + left.describe() + "' and '"@
        + right.describe() + "'"@
}

/// The message for a statement that stands where a value is needed; `role` says where.
pub open spec fn statement_as(role: Seq<char>) -> Seq<char> {
    "Expected expression, but received statement as "@ + role
}

/// The message for a call of a name that holds no function.
pub open spec fn not_callable(name: Seq<char>) -> Seq<char> {
    "'"@ + name + "' is not callable"@
}

/// The message for a call with another number of arguments than the function has
/// parameters.
pub open spec fn arity_mismatch(parameters: nat, arguments: nat) -> Seq<char> {
    "Expected "@ + decimal(parameters) + " arguments but received "@ + decimal(arguments)
}

/// The message for a call that would nest deeper than the scope allows.
pub open spec fn call_depth_exceeded() -> Seq<char> {
    "Call depth limit exceeded"@
}

/// A binary operator applied to two values. The four arithmetic operators take two numbers;
/// sums, differences and products wrap around, and a quotient is rounded toward zero.
pub open spec fn apply_operator(operator: Seq<char>, left: DataView, right: DataView) -> Result<
    DataView,
    Seq<char>,
> {
    match (left, right) {
        (DataView::Number(l), DataView::Number(r)) => {
            if operator == "+"@ {
                Ok(DataView::Number(wrapped(l + r)))
            } else if operator == "-"@ {
                Ok(DataView::Number(wrapped(l - r)))
            } else if operator == "*"@ {
                Ok(DataView::Number(wrapped(l * r)))
            } else if operator == "/"@ {
                if r == 0 {
                    Err(division_by_zero())
                } else {
                    Ok(DataView::Number(wrapped(quotient(l as int, r as int))))
                }
            } else {
                Err(unexpected_operator(operator, left, right))
            }
        },
        _ => Err(unexpected_operator(operator, left, right)),
    }
}

/// The outcome of a read or a borrow, as the outcome of an expression.
pub open spec fn yielding(step: (ScopeView, Result<DataView, Seq<char>>)) -> Outcome {
    Outcome {
        scope: step.0,
        result: match step.1 {
            Ok(data) => Ok(Some(data)),
            Err(message) => Err(message),
        },
    }
}

/// The store with the first `count` of `parameters` bound, in order, to the first `count` of
/// `values` in the current scope.
pub open spec fn bound(
    scope: ScopeView,
    parameters: Seq<Seq<char>>,
    values: Seq<DataView>,
    count: int,
) -> ScopeView
    decreases count,
{
    if count <= 0 || count > parameters.len() || count > values.len() {
        scope
    } else {
        bound(scope, parameters, values, count - 1).declare(
            parameters[count - 1],
            values[count - 1],
        )
    }
}

/// The store after the value `value` was dropped, where there is one.
pub open spec fn released(scope: ScopeView, value: Option<DataView>) -> ScopeView {
    match value {
        Some(data) => scope.release(data),
        None => scope,
    }
}

/// The store after the values `values` were dropped, the last one first.
pub open spec fn dropped(scope: ScopeView, values: Seq<DataView>) -> ScopeView
    decreases values.len(),
{
    if values.len() == 0 {
        scope
    } else {
        dropped(scope.release(values.last()), values.drop_last())
    }
}

/// The outcome of a node: that of the expression or of the statement that it holds.
pub open spec fn evaluate_spec(node: NodeView, scope: ScopeView, depth: nat) -> Outcome
    decreases depth, node, 0int,
{
    match node {
        NodeView::Expression(expression) => evaluate_expression_spec(*expression, scope, depth),
        NodeView::Statement(statement) => evaluate_statement_spec(*statement, scope, depth),
    }
}

/// The outcome of an expression.
pub open spec fn evaluate_expression_spec(
    expression: ExpressionView,
    scope: ScopeView,
    depth: nat,
) -> Outcome
    decreases depth, expression, 0int,
{
    match expression {
        ExpressionView::Number(n) => Outcome { scope, result: Ok(Some(DataView::Number(n))) },
        ExpressionView::Boolean(b) => Outcome { scope, result: Ok(Some(DataView::Boolean(b))) },
        ExpressionView::Identifier(name) => yielding(scope.resolve(name)),
        ExpressionView::Reference(name) => yielding(scope.borrow(name)),
        ExpressionView::BinaryExpression { operator, left, right } => {
            let first = evaluate_expression_spec(*left, scope, depth);
            match first.result {
                Err(_) => first,
                Ok(None) => Outcome {
                    scope: first.scope,
                    result: Err(statement_as("left operand"@)),
                },
                Ok(Some(left_value)) => {
                    let second = evaluate_expression_spec(*right, first.scope, depth);
                    match second.result {
                        Err(message) => Outcome {
                            scope: second.scope.release(left_value),
                            result: Err(message),
                        },
                        Ok(None) => Outcome {
                            scope: second.scope.release(left_value),
                            result: Err(statement_as("right operand"@)),
                        },
                        Ok(Some(right_value)) => match apply_operator(
                            operator,
                            left_value,
                            right_value,
                        ) {
                            Ok(data) => Outcome { scope: second.scope, result: Ok(Some(data)) },
                            Err(message) => Outcome {
                                scope: second.scope.release(left_value).release(right_value),
                                result: Err(message),
                            },
                        },
                    }
                },
            }
        },
        ExpressionView::Call { name, arguments } => evaluate_call_spec(
            name,
            arguments,
            scope,
            depth,
        ),
        ExpressionView::Block(nodes) => {
            let inner = evaluate_sequence_spec(
                nodes,
                0,
                scope.open(scope.current, true),
                depth,
                None,
            );
            Outcome {
                scope: inner.scope.close(scope.frames.len(), scope.current),
                result: inner.result,
            }
        },
        ExpressionView::Program(nodes) => evaluate_sequence_spec(nodes, 0, scope, depth, None),
    }
}

/// The outcome of the nodes of a block or of a program from index `from` on, in the current
/// scope. `last` is the value of the last expression before `from`: it is what the
/// sequence yields where no expression follows, and it is dropped when one does, or when a
/// statement that follows fails.
pub open spec fn evaluate_sequence_spec(
    nodes: Seq<NodeView>,
    from: int,
    scope: ScopeView,
    depth: nat,
    last: Option<DataView>,
) -> Outcome
    decreases depth, nodes, nodes.len() - from,
{
    if from < 0 || from >= nodes.len() {
        Outcome { scope, result: Ok(last) }
    } else if nodes[from] is Expression {
        let step = evaluate_spec(nodes[from], released(scope, last), depth);
        match step.result {
            Err(_) => step,
            Ok(value) => evaluate_sequence_spec(nodes, from + 1, step.scope, depth, value),
        }
    } else {
        let step = evaluate_spec(nodes[from], scope, depth);
        match step.result {
            Err(message) => Outcome { scope: released(step.scope, last), result: Err(message) },
            Ok(_) => evaluate_sequence_spec(nodes, from + 1, step.scope, depth, last),
        }
    }
}

/// The outcome of a statement: the store with the new binding, and no value.
pub open spec fn evaluate_statement_spec(statement: StatementView, scope: ScopeView, depth: nat)
    -> Outcome
    decreases depth, statement, 0int,
{
    match statement {
        StatementView::Variable { name, value } => {
            let step = evaluate_expression_spec(*value, scope, depth);
            match step.result {
                Err(_) => step,
                Ok(None) => Outcome { scope: step.scope, result: Err(statement_as("value"@)) },
                Ok(Some(data)) => Outcome {
                    scope: step.scope.declare(name, data),
                    result: Ok(None),
                },
            }
        },
        StatementView::Function { name, parameters, body } => Outcome {
            scope: scope.open(scope.current, false).declare(
                name,
                DataView::Function { parameters, body: *body, definition_scope: scope.frames.len() },
            ),
            result: Ok(None),
        },
    }
}

/// The values of the arguments of a call from index `from` on, after `values`. Where an
/// argument fails, the values before it are dropped.
pub open spec fn evaluate_arguments_spec(
    arguments: Seq<ExpressionView>,
    from: int,
    scope: ScopeView,
    depth: nat,
    values: Seq<DataView>,
) -> Evaluated
    decreases depth, arguments, arguments.len() - from,
{
    if from < 0 || from >= arguments.len() {
        Evaluated { scope, result: Ok(values) }
    } else {
        let step = evaluate_expression_spec(arguments[from], scope, depth);
        match step.result {
            Err(message) => Evaluated { scope: dropped(step.scope, values), result: Err(message) },
            Ok(None) => Evaluated {
                scope: dropped(step.scope, values),
                result: Err(statement_as("argument"@)),
            },
            Ok(Some(data)) => evaluate_arguments_spec(
                arguments,
                from + 1,
                step.scope,
                depth,
                values.push(data),
            ),
        }
    }
}

/// The outcome of the call `name(arguments)`.
///
/// The name is read in the scope of the call, which moves the function out of its binding.
/// The arguments are evaluated there too. The body runs in a fresh scope under the scope
/// that the function was defined in, with the parameters bound to the arguments; when it
/// ends, that scope is closed. A value that was read and is no function is dropped.
pub open spec fn evaluate_call_spec(
    name: Seq<char>,
    arguments: Seq<ExpressionView>,
    scope: ScopeView,
    depth: nat,
) -> Outcome
    decreases depth, arguments, arguments.len() + 1,
{
    let (read, resolved) = scope.resolve(name);
    match resolved {
        Err(message) => Outcome { scope: read, result: Err(message) },
        Ok(DataView::Function { parameters, body, definition_scope }) => {
            if arguments.len() != parameters.len() {
                Outcome {
                    scope: read,
                    result: Err(arity_mismatch(parameters.len(), arguments.len())),
                }
            } else {
                let evaluated = evaluate_arguments_spec(arguments, 0, read, depth, Seq::empty());
                match evaluated.result {
                    Err(message) => Outcome { scope: evaluated.scope, result: Err(message) },
                    Ok(values) => if depth == 0 {
                        Outcome {
                            scope: dropped(evaluated.scope, values),
                            result: Err(call_depth_exceeded()),
                        }
                    } else {
                        let entered = bound(
                            evaluated.scope.open(definition_scope, true),
                            parameters,
                            values,
                            parameters.len() as int,
                        );
                        let inner = evaluate_expression_spec(body, entered, (depth - 1) as nat);
                        Outcome {
                            scope: inner.scope.close(evaluated.scope.frames.len(), scope.current),
                            result: inner.result,
                        }
                    },
                }
            }
        },
        Ok(data) => Outcome { scope: read.release(data), result: Err(not_callable(name)) },
    }
}

} // verus!
