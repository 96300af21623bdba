//! The evaluator: walks the syntax tree and drives the scope store.

use vstd::prelude::*;
use crate::error::MovaError;
use crate::interpreter::accounting::{
    counted, keeps_count, lemma_evaluation_keeps_count, lemma_expression_keeps_count,
};
use crate::interpreter::data::{share, Data, DataView};
use crate::interpreter::model::ScopeView;
use crate::interpreter::scope::{data_result, is_runtime, runtime_error, Scope};
use crate::interpreter::semantics::{
    apply_operator, bound, dropped, evaluate_arguments_spec, evaluate_call_spec,
    evaluate_expression_spec, evaluate_sequence_spec, evaluate_spec, evaluate_statement_spec,
    Outcome,
};
use crate::parser::expression::{expression_views, Expression};
use crate::parser::node::{node_views, Node, NodeView};
use crate::parser::statement::{texts, Statement};
use crate::text::{decimal_text, reversed, same_text};

verus! {

/// The values of a sequence of runtime values.
pub open spec fn data_views(values: Seq<Data>) -> Seq<DataView> {
    values.map_values(|d: Data| d@)
}

/// Whether `result` is the value, the absence of one, or the failure `expected`.
pub open spec fn outcome_result(
    result: Result<Option<Data>, MovaError>,
    expected: Result<Option<DataView>, Seq<char>>,
) -> bool {
    match result {
        Ok(Some(data)) => expected == Ok::<Option<DataView>, Seq<char>>(Some(data@)),
        Ok(None) => expected == Ok::<Option<DataView>, Seq<char>>(None),
        Err(error) => match expected {
            Err(message) => is_runtime(error, message),
            Ok(_) => false,
        },
    }
}

/// How evaluation may change a store, whatever is evaluated: the store only grows, the
/// current scope stays the current one, no other scope that was there gains or loses a
/// binding, and the scopes that were opened hold no binding at the end.
pub open spec fn advances(before: ScopeView, after: ScopeView) -> bool {
    &&& after.frames.len() >= before.frames.len()
    &&& after.slots.len() >= before.slots.len()
    &&& after.current == before.current
    &&& after.frames[before.current as int].parent == before.frames[before.current as int].parent
    &&& forall|f: int|
        0 <= f < before.frames.len() && f != before.current ==> #[trigger] after.frames[f]
            == before.frames[f]
    &&& forall|f: int|
        before.frames.len() <= f < after.frames.len() ==> (#[trigger] after.frames[f]).locals.len()
            == 0
}

/// What the evaluation of a block leaves behind: no binding was added or changed in any
/// scope that was there, and the scope of the block, like every scope opened within it,
/// holds no binding.
pub open spec fn leaves_no_binding(before: ScopeView, after: ScopeView) -> bool {
    &&& after.frames.len() >= before.frames.len()
    &&& after.slots.len() >= before.slots.len()
    &&& forall|f: int| 0 <= f < before.frames.len() ==> #[trigger] after.frames[f] == before.frames[f]
    &&& forall|f: int|
        before.frames.len() <= f < after.frames.len() ==> (#[trigger] after.frames[f]).locals.len()
            == 0
}

/// Whether the evaluation that took the store from `before` to `after` and returned `result`
/// is the one that `outcome` describes.
pub open spec fn evaluated(
    before: Scope,
    after: Scope,
    result: Result<Option<Data>, MovaError>,
    outcome: Outcome,
) -> bool {
    &&& after.wf()
    &&& after@ == outcome.scope
    &&& outcome_result(result, outcome.result)
    &&& after.call_depth() == before.call_depth()
    &&& advances(before@, after@)
    &&& match result {
        Ok(Some(data)) => after@.holds(data@),
        _ => true,
    }
}

/// Applies a binary operator to two values.
fn evaluate_binary_expression(operator: &str, left: &Data, right: &Data) -> (result: Result<
    Data,
    MovaError,
>)
    ensures
        data_result(result, apply_operator(operator@, left@, right@)),
{
    let numbers: Option<(i32, i32)> = match (left, right) {
        (Data::Number(l), Data::Number(r)) => Some((*l, *r)),
        _ => None,
    };
    if let Some((l, r)) = numbers {
        if same_text(operator, "+") {
            return Ok(Data::Number(l.wrapping_add(r)));
        } else if same_text(operator, "-") {
            return Ok(Data::Number(l.wrapping_sub(r)));
        } else if same_text(operator, "*") {
            return Ok(Data::Number(l.wrapping_mul(r)));
        } else if same_text(operator, "/") {
            if r == 0 {
                return Err(runtime_error(String::from_str("Division by zero")));
            }
            let q = match l.checked_div(r) {
                Some(q) => q,
                None => i32::MIN,
            };
            return Ok(Data::Number(q));
        }
    }
    let left_text = left.describe();
    let right_text = right.describe();
    Err(
        runtime_error(
            String::from_str("Unexpected operator '").concat(operator).concat(
                "' for operands '",
            ).concat(left_text.as_str()).concat("' and '").concat(right_text.as_str()).concat("'"),
        ),
    )
}

/// Drops the values `values`, the last one first: each reference among them is given back.
fn drop_values(scope: &mut Scope, values: Vec<Data>)
    requires
        old(scope).wf(),
    ensures
        final(scope).wf(),
        final(scope)@ == dropped(old(scope)@, data_views(values@)),
        final(scope).call_depth() == old(scope).call_depth(),
        final(scope)@.frames == old(scope)@.frames,
        final(scope)@.current == old(scope)@.current,
        final(scope)@.slots.len() == old(scope)@.slots.len(),
{
    let mut values = values;
    let ghost all = data_views(values@);
    while values.len() > 0
        invariant
            scope.wf(),
            scope.call_depth() == old(scope).call_depth(),
            scope@.frames == old(scope)@.frames,
            scope@.current == old(scope)@.current,
            scope@.slots.len() == old(scope)@.slots.len(),
            dropped(old(scope)@, all) == dropped(scope@, data_views(values@)),
        decreases values.len(),
    {
        let ghost held = data_views(values@);
        match values.pop() {
            Some(value) => {
                proof {
                    assert(held.last() == value@);
                    assert(data_views(values@) =~= held.drop_last());
                    scope@.lemma_release(value@);
                }
                scope.release(value);
            },
            None => {},
        }
    }
}

/// Evaluates the call `name(arguments)`.
#[verifier::loop_isolation(false)]
fn evaluate_call(scope: &mut Scope, name: &str, arguments: &Vec<Expression>) -> (result: Result<
    Option<Data>,
    MovaError,
>)
    requires
        old(scope).wf(),
    ensures
        evaluated(
            *old(scope),
            *final(scope),
            result,
            evaluate_call_spec(
                name@,
                expression_views(arguments@),
                old(scope)@,
                old(scope).call_depth(),
            ),
        ),
    decreases old(scope).call_depth(), arguments, arguments.len() + 1,
{
    let ghost start = scope@;
    let ghost depth = scope.call_depth();
    let ghost views = expression_views(arguments@);
    let site = scope.current();
    proof {
        start.lemma_resolve(name@);
    }
    let function = match scope.resolve(name) {
        Ok(function) => function,
        Err(error) => {
            return Err(error);
        },
    };
    let ghost read = scope@;
    match function {
        Data::Function { parameters, body, definition_scope } => {
            let argument_count = arguments.len();
            let parameter_count = parameters.len();
            if argument_count != parameter_count {
                let expected = decimal_text(parameter_count);
                let received = decimal_text(argument_count);
                return Err(
                    runtime_error(
                        String::from_str("Expected ").concat(expected.as_str()).concat(
                            " arguments but received ",
                        ).concat(received.as_str()),
                    ),
                );
            }
            let mut values: Vec<Data> = Vec::new();
            let mut i: usize = 0;
            assert(data_views(values@) =~= Seq::<DataView>::empty());
            while i < arguments.len()
                invariant
                    i <= arguments.len(),
                    scope.wf(),
                    scope.call_depth() == depth,
                    advances(start, scope@),
                    values.len() == i,
                    forall|j: int| 0 <= j < values.len() ==> scope@.holds(#[trigger] values@[j]@),
                    evaluate_arguments_spec(views, 0, read, depth, Seq::empty())
                        == evaluate_arguments_spec(views, i as int, scope@, depth, data_views(values@)),
                decreases arguments.len() - i,
            {
                let ghost before = scope@;
                match evaluate_expression(&arguments[i], scope) {
                    Err(error) => {
                        drop_values(scope, values);
                        return Err(error);
                    },
                    Ok(None) => {
                        drop_values(scope, values);
                        return Err(
                            runtime_error(
                                String::from_str(
                                    "Expected expression, but received statement as ",
                                ).concat("argument"),
                            ),
                        );
                    },
                    Ok(Some(value)) => {
                        proof {
                            assert(data_views(values@.push(value)) =~= data_views(values@).push(
                                value@,
                            ));
                        }
                        values.push(value);
                    },
                }
                i = i + 1;
            }
            let budget = scope.remaining_depth();
            if budget == 0 {
                drop_values(scope, values);
                return Err(runtime_error(String::from_str("Call depth limit exceeded")));
            }
            let frame = scope.open(definition_scope, true);
            let ghost opened = scope@;
            let ghost names = texts(parameters@);
            let ghost given = data_views(values@);
            let mut stack = reversed(values);
            let mut k: usize = 0;
            while k < parameter_count
                invariant
                    k <= parameter_count,
                    parameter_count == parameters.len(),
                    stack.len() == parameter_count - k,
                    given.len() == parameter_count,
                    forall|j: int|
                        0 <= j < stack.len() ==> (#[trigger] stack@[j])@ == given[parameter_count - 1
                            - j],
                    forall|j: int| 0 <= j < given.len() ==> (#[trigger] given[j]).fits(
                        opened.slots.len(),
                        opened.frames.len(),
                    ),
                    scope.wf(),
                    scope.call_depth() == depth,
                    scope@ == bound(opened, names, given, k as int),
                    scope@.current == frame,
                    scope@.frames.len() == opened.frames.len(),
                    scope@.slots.len() >= opened.slots.len(),
                    scope@.frames[frame as int].parent == opened.frames[frame as int].parent,
                    forall|f: int|
                        0 <= f < opened.frames.len() && f != frame ==> #[trigger] scope@.frames[f]
                            == opened.frames[f],
                decreases parameter_count - k,
            {
                let ghost before = scope@;
                match stack.pop() {
                    Some(value) => {
                        proof {
                            before.lemma_declare(names[k as int], value@);
                        }
                        scope.declare(parameters[k].as_str(), value);
                    },
                    None => {},
                }
                k = k + 1;
            }
            scope.set_depth(budget - 1);
            let result = evaluate_expression(&body, scope);
            let ghost inner = scope@;
            scope.set_depth(budget);
            proof {
                inner.lemma_close(frame as nat, site as nat);
            }
            scope.close(frame, site);
            result
        },
        other => {
            proof {
                scope@.lemma_release(other@);
            }
            scope.release(other);
            Err(runtime_error(String::from_str("'").concat(name).concat("' is not callable")))
        },
    }
}

/// Evaluates the nodes of a block or of a program, one after the other, in the current
/// scope.
#[verifier::loop_isolation(false)]
fn evaluate_sequence(nodes: &Vec<Node>, scope: &mut Scope) -> (result: Result<
    Option<Data>,
    MovaError,
>)
    requires
        old(scope).wf(),
    ensures
        evaluated(
            *old(scope),
            *final(scope),
            result,
            evaluate_sequence_spec(
                node_views(nodes@),
                0,
                old(scope)@,
                old(scope).call_depth(),
                None,
            ),
        ),
    decreases old(scope).call_depth(), nodes, nodes.len() + 1,
{
    let ghost start = scope@;
    let ghost depth = scope.call_depth();
    let ghost views = node_views(nodes@);
    let mut last: Option<Data> = None;
    let mut i: usize = 0;
    while i < nodes.len()
        invariant
            i <= nodes.len(),
            scope.wf(),
            scope.call_depth() == depth,
            advances(start, scope@),
            match last {
                Some(data) => scope@.holds(data@),
                None => true,
            },
            evaluate_sequence_spec(views, 0, start, depth, None) == evaluate_sequence_spec(
                views,
                i as int,
                scope@,
                depth,
                match last {
                    Some(data) => Some(data@),
                    None => None,
                },
            ),
        decreases nodes.len() - i,
    {
        let is_expression = match &nodes[i] {
            Node::Expression(_) => true,
            Node::Statement(_) => false,
        };
        if is_expression {
            if let Some(data) = last {
                proof {
                    scope@.lemma_release(data@);
                }
                scope.release(data);
            }
            last = None;
            match evaluate(&nodes[i], scope) {
                Err(error) => {
                    return Err(error);
                },
                Ok(value) => {
                    last = value;
                },
            }
        } else {
            match evaluate(&nodes[i], scope) {
                Err(error) => {
                    if let Some(data) = last {
                        proof {
                            scope@.lemma_release(data@);
                        }
                        scope.release(data);
                    }
                    return Err(error);
                },
                Ok(_) => {},
            }
        }
        i = i + 1;
    }
    Ok(last)
}

/// Evaluates an expression.
fn evaluate_expression(expression: &Expression, scope: &mut Scope) -> (result: Result<
    Option<Data>,
    MovaError,
>)
    requires
        old(scope).wf(),
    ensures
        evaluated(
            *old(scope),
            *final(scope),
            result,
            evaluate_expression_spec(expression@, old(scope)@, old(scope).call_depth()),
        ),
        expression@ is Block ==> leaves_no_binding(old(scope)@, final(scope)@),
        counted(old(scope)@.slots) ==> keeps_count(
            old(scope)@,
            None,
            evaluate_expression_spec(expression@, old(scope)@, old(scope).call_depth()),
        ),
    decreases old(scope).call_depth(), expression, 0int,
{
    let ghost start = scope@;
    proof {
        if counted(scope@.slots) {
            lemma_expression_keeps_count(expression@, scope@, scope.call_depth());
        }
    }
    match expression {
        Expression::Number(n) => Ok(Some(Data::Number(*n))),
        Expression::Boolean(b) => Ok(Some(Data::Boolean(*b))),
        Expression::Identifier(name) => {
            proof {
                start.lemma_resolve(name@);
            }
            match scope.resolve(name.as_str()) {
                Ok(data) => Ok(Some(data)),
                Err(error) => Err(error),
            }
        },
        Expression::Reference(name) => {
            proof {
                start.lemma_borrow(name@);
            }
            match scope.borrow(name.as_str()) {
                Ok(data) => Ok(Some(data)),
                Err(error) => Err(error),
            }
        },
        Expression::BinaryExpression { operator, left, right } => {
            let left_value = match evaluate_expression(left, scope) {
                Err(error) => {
                    return Err(error);
                },
                Ok(None) => {
                    return Err(
                        runtime_error(
                            String::from_str(
                                "Expected expression, but received statement as ",
                            ).concat("left operand"),
                        ),
                    );
                },
                Ok(Some(value)) => value,
            };
            let right_value = match evaluate_expression(right, scope) {
                Err(error) => {
                    proof {
                        scope@.lemma_release(left_value@);
                    }
                    scope.release(left_value);
                    return Err(error);
                },
                Ok(None) => {
                    proof {
                        scope@.lemma_release(left_value@);
                    }
                    scope.release(left_value);
                    return Err(
                        runtime_error(
                            String::from_str(
                                "Expected expression, but received statement as ",
                            ).concat("right operand"),
                        ),
                    );
                },
                Ok(Some(value)) => value,
            };
            match evaluate_binary_expression(operator.as_str(), &left_value, &right_value) {
                Ok(data) => Ok(Some(data)),
                Err(error) => {
                    proof {
                        scope@.lemma_release(left_value@);
                        scope@.release(left_value@).lemma_release(right_value@);
                    }
                    scope.release(left_value);
                    scope.release(right_value);
                    Err(error)
                },
            }
        },
        Expression::Call { name, arguments } => {
            proof {
                Expression::lemma_call_view(*name, *arguments);
            }
            evaluate_call(scope, name.as_str(), arguments)
        },
        Expression::Block(nodes) => {
            proof {
                Expression::lemma_block_view(*nodes);
            }
            let site = scope.current();
            let frame = scope.open(site, true);
            let result = evaluate_sequence(nodes, scope);
            let ghost inner = scope@;
            proof {
                inner.lemma_close(frame as nat, site as nat);
            }
            scope.close(frame, site);
            result
        },
        Expression::Program(nodes) => {
            proof {
                Expression::lemma_block_view(*nodes);
            }
            evaluate_sequence(nodes, scope)
        },
    }
}

/// Evaluates a statement: declares the variable or the function in the current scope.
fn evaluate_statement(statement: &Statement, scope: &mut Scope) -> (result: Result<(), MovaError>)
    requires
        old(scope).wf(),
    ensures
        evaluated(
            *old(scope),
            *final(scope),
            match result {
                Ok(_) => Ok(None),
                Err(error) => Err(error),
            },
            evaluate_statement_spec(statement@, old(scope)@, old(scope).call_depth()),
        ),
    decreases old(scope).call_depth(), statement, 0int,
{
    match statement {
        Statement::Variable { name, value } => {
            let data = match evaluate_expression(value, scope) {
                Err(error) => {
                    return Err(error);
                },
                Ok(None) => {
                    return Err(
                        runtime_error(
                            String::from_str(
                                "Expected expression, but received statement as ",
                            ).concat("value"),
                        ),
                    );
                },
                Ok(Some(data)) => data,
            };
            proof {
                scope@.lemma_declare(name@, data@);
            }
            scope.declare(name.as_str(), data);
            Ok(())
        },
        Statement::Function { name, parameters, body } => {
            let site = scope.current();
            let definition_scope = scope.open(site, false);
            let function = Data::Function {
                parameters: share(parameters),
                body: share(body),
                definition_scope,
            };
            proof {
                scope@.lemma_declare(name@, function@);
            }
            scope.declare(name.as_str(), function);
            Ok(())
        },
    }
}

/// Evaluates a node in `scope`.
///
/// An expression yields `Some` value, or `None` where it is a block or a program in which no
/// expression stands; a statement yields `None`. Whatever fails is a runtime error, and ends
/// the evaluation at once.
///
/// Evaluation makes at most `scope.call_depth()` nested calls; a call beyond that fails. A
/// limit that is at least the number of function definitions in the node and in the store
/// is never reached.
///
/// Every reference is counted: in a store whose borrow counts cover the references that its
/// slots hold, they still do afterwards, and the only reference that evaluation leaves in
/// hand is the one it yields. A failed evaluation leaves none: what it borrowed and did not
/// bind, it gave back.
pub fn evaluate(node: &Node, scope: &mut Scope) -> (result: Result<Option<Data>, MovaError>)
    requires
        old(scope).wf(),
    ensures
        evaluated(
            *old(scope),
            *final(scope),
            result,
            evaluate_spec(node@, old(scope)@, old(scope).call_depth()),
        ),
        node@ matches NodeView::Expression(expression) && *expression is Block
            ==> leaves_no_binding(old(scope)@, final(scope)@),
        counted(old(scope)@.slots) ==> keeps_count(
            old(scope)@,
            None,
            evaluate_spec(node@, old(scope)@, old(scope).call_depth()),
        ),
    decreases old(scope).call_depth(), node, 0int,
{
    proof {
        if counted(scope@.slots) {
            lemma_evaluation_keeps_count(node@, scope@, scope.call_depth());
        }
    }
    match node {
        Node::Expression(expression) => evaluate_expression(expression, scope),
        Node::Statement(statement) => match evaluate_statement(statement, scope) {
            Ok(_) => Ok(None),
            Err(error) => Err(error),
        },
    }
}

} // verus!
