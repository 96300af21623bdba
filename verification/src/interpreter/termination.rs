//! No evaluation calls deeper than the program defines functions.
//!
//! A function is moved out of its binding when it is called, so each function value is
//! called once at most, and each definition that is evaluated makes one function value. The
//! theorems of this module say that a limit on nested calls that is at least the number of
//! function definitions in the program and in the store plays no part in the outcome.

use vstd::prelude::*;
use crate::interpreter::data::{DataView, SlotView};
use crate::interpreter::model::{
    destroyed, destroyed_all, keeps_values, position, returned, ScopeView,
};
use crate::interpreter::semantics::{
    bound, evaluate_arguments_spec, evaluate_call_spec, evaluate_expression_spec,
    evaluate_sequence_spec, evaluate_spec, Outcome,
};
use crate::interpreter::theorems::{
    all_held, lemma_arguments_are_sound, lemma_bound, lemma_evaluation_is_sound,
    lemma_expression_is_sound,
};
use crate::parser::expression::ExpressionView;
use crate::parser::node::NodeView;
use crate::parser::statement::StatementView;

verus! {

/// The number of function definitions in an expression, however deep.
pub open spec fn definitions(expression: ExpressionView) -> nat
    decreases expression, 0int,
{
    match expression {
        ExpressionView::Number(_) => 0,
        ExpressionView::Boolean(_) => 0,
        ExpressionView::Identifier(_) => 0,
        ExpressionView::Reference(_) => 0,
        ExpressionView::BinaryExpression { left, right, .. } => definitions(*left) + definitions(
            *right,
        ),
        ExpressionView::Call { arguments, .. } => definitions_from(arguments, 0),
        ExpressionView::Block(nodes) => node_definitions_from(nodes, 0),
        ExpressionView::Program(nodes) => node_definitions_from(nodes, 0),
    }
}

/// The number of function definitions in the expressions from index `from` on.
pub open spec fn definitions_from(expressions: Seq<ExpressionView>, from: int) -> nat
    decreases expressions, expressions.len() - from,
{
    if from < 0 || from >= expressions.len() {
        0
    } else {
        definitions(expressions[from]) + definitions_from(expressions, from + 1)
    }
}

/// The number of function definitions in a node, however deep.
pub open spec fn node_definitions(node: NodeView) -> nat
    decreases node, 0int,
{
    match node {
        NodeView::Expression(expression) => definitions(*expression),
        NodeView::Statement(statement) => match *statement {
            StatementView::Variable { value, .. } => definitions(*value),
            StatementView::Function { body, .. } => 1 + definitions(*body),
        },
    }
}

/// The number of function definitions in the nodes from index `from` on.
pub open spec fn node_definitions_from(nodes: Seq<NodeView>, from: int) -> nat
    decreases nodes, nodes.len() - from,
{
    if from < 0 || from >= nodes.len() {
        0
    } else {
        node_definitions(nodes[from]) + node_definitions_from(nodes, from + 1)
    }
}

/// The number of calls that a value may lead to: for a function, its own call and one for
/// each function definition in its body.
pub open spec fn weight(data: DataView) -> nat {
    match data {
        DataView::Function { body, .. } => 1 + definitions(body),
        _ => 0,
    }
}

/// The weight of a value, where there is one.
pub open spec fn weight_of(value: Option<DataView>) -> nat {
    match value {
        Some(data) => weight(data),
        None => 0,
    }
}

/// The weight of the first `upto` of `values`.
pub open spec fn weights_in(values: Seq<DataView>, upto: int) -> nat
    decreases upto,
{
    if upto <= 0 || upto > values.len() {
        0
    } else {
        weights_in(values, upto - 1) + weight(values[upto - 1])
    }
}

/// The weight of `values`.
pub open spec fn weights(values: Seq<DataView>) -> nat {
    weights_in(values, values.len() as int)
}

/// The weight of the values in the first `upto` of `slots`.
pub open spec fn potential_in(slots: Seq<SlotView>, upto: int) -> nat
    decreases upto,
{
    if upto <= 0 || upto > slots.len() {
        0
    } else {
        potential_in(slots, upto - 1) + weight(slots[upto - 1].value)
    }
}

/// The weight of the values in the store: the number of calls that they may lead to.
pub open spec fn potential(slots: Seq<SlotView>) -> nat {
    potential_in(slots, slots.len() as int)
}

/// Replacing the value of one slot changes the potential by the weights of the two values.
proof fn lemma_potential_update(slots: Seq<SlotView>, id: int, slot: SlotView, upto: int)
    requires
        0 <= id < slots.len(),
        0 <= upto <= slots.len(),
    ensures
        potential_in(slots.update(id, slot), upto) + (if id < upto {
            weight(slots[id].value)
        } else {
            0
        }) == potential_in(slots, upto) + (if id < upto {
            weight(slot.value)
        } else {
            0
        }),
    decreases upto,
{
    if upto > 0 {
        lemma_potential_update(slots, id, slot, upto - 1);
    }
}

/// Slots that keep their values, or are left as moved, keep their potential or lose some.
proof fn lemma_potential_kept(before: Seq<SlotView>, after: Seq<SlotView>, upto: int)
    requires
        keeps_values(before, after),
        0 <= upto <= before.len(),
    ensures
        potential_in(after, upto) <= potential_in(before, upto),
    decreases upto,
{
    if upto > 0 {
        lemma_potential_kept(before, after, upto - 1);
    }
}

/// Slots that agree on their values up to `upto` have the same potential up to there.
proof fn lemma_potential_same(first: Seq<SlotView>, second: Seq<SlotView>, upto: int)
    requires
        upto <= first.len(),
        upto <= second.len(),
        forall|id: int| 0 <= id < upto ==> (#[trigger] first[id]).value == second[id].value,
    ensures
        potential_in(first, upto) == potential_in(second, upto),
    decreases upto,
{
    if upto > 0 {
        lemma_potential_same(first, second, upto - 1);
    }
}

/// Destroying a slot leaves the potential as it is.
proof fn lemma_destroyed_potential(slots: Seq<SlotView>, id: nat)
    ensures
        potential(destroyed(slots, id)) == potential(slots),
{
    if id < slots.len() {
        match slots[id as int].value {
            DataView::Reference(target) => {
                let after = returned(slots, target);
                lemma_potential_same(slots, after, slots.len() as int);
                lemma_potential_update(
                    after,
                    id as int,
                    SlotView { value: DataView::Moved, ..after[id as int] },
                    after.len() as int,
                );
            },
            _ => {},
        }
    }
}

/// Destroying the slots of a scope leaves the potential as it is.
proof fn lemma_destroyed_all_potential(slots: Seq<SlotView>, locals: Seq<(Seq<char>, nat)>, count: int)
    ensures
        potential(destroyed_all(slots, locals, count)) == potential(slots),
    decreases count,
{
    if count <= 0 || count > locals.len() {
    } else {
        lemma_destroyed_all_potential(slots, locals, count - 1);
        lemma_destroyed_potential(destroyed_all(slots, locals, count - 1), locals[count - 1].1);
    }
}

/// A fresh slot adds the weight of its value to the potential.
proof fn lemma_potential_push(slots: Seq<SlotView>, slot: SlotView)
    ensures
        potential(slots.push(slot)) == potential(slots) + weight(slot.value),
{
    lemma_potential_same(slots, slots.push(slot), slots.len() as int);
}

/// Declaring a value adds its weight to the potential.
proof fn lemma_declare_potential(scope: ScopeView, name: Seq<char>, data: DataView)
    ensures
        potential(scope.declare(name, data).slots) == potential(scope.slots) + weight(data),
{
    let frame = scope.frames[scope.current as int];
    let fresh = SlotView { value: data, borrow_count: 0, is_mutably_borrowed: false };
    match position(frame.locals, name) {
        Some(k) => {
            lemma_destroyed_potential(scope.slots, frame.locals[k].1);
            lemma_potential_push(destroyed(scope.slots, frame.locals[k].1), fresh);
        },
        None => {
            lemma_potential_push(scope.slots, fresh);
        },
    }
}

/// Reading a name takes the weight of what is read out of the store, or copies a value
/// without weight.
proof fn lemma_resolve_potential(scope: ScopeView, name: Seq<char>)
    requires
        scope.wf(),
    ensures
        match scope.resolve(name).1 {
            Ok(data) => potential(scope.resolve(name).0.slots) + weight(data) <= potential(
                scope.slots,
            ),
            Err(_) => scope.resolve(name).0 == scope,
        },
{
    scope.lemma_find_slot(scope.current, name);
    match scope.find_slot(scope.current, name) {
        None => {},
        Some(id) => {
            let slot = scope.slots[id as int];
            lemma_potential_update(
                scope.slots,
                id as int,
                SlotView { value: DataView::Moved, ..slot },
                scope.slots.len() as int,
            );
        },
    }
}

/// One more value adds its weight.
proof fn lemma_weights_push(values: Seq<DataView>, data: DataView)
    ensures
        weights(values.push(data)) == weights(values) + weight(data),
{
    lemma_weights_same(values, values.push(data), values.len() as int);
}

proof fn lemma_weights_same(first: Seq<DataView>, second: Seq<DataView>, upto: int)
    requires
        upto <= first.len(),
        upto <= second.len(),
        forall|j: int| 0 <= j < upto ==> #[trigger] first[j] == second[j],
    ensures
        weights_in(first, upto) == weights_in(second, upto),
    decreases upto,
{
    if upto > 0 {
        lemma_weights_same(first, second, upto - 1);
    }
}

/// Binding the arguments of a call adds their weight to the potential.
proof fn lemma_bound_potential(
    scope: ScopeView,
    parameters: Seq<Seq<char>>,
    values: Seq<DataView>,
    count: int,
)
    requires
        0 <= count <= values.len(),
        count <= parameters.len(),
    ensures
        potential(bound(scope, parameters, values, count).slots) == potential(scope.slots)
            + weights_in(values, count),
    decreases count,
{
    if count > 0 {
        lemma_bound_potential(scope, parameters, values, count - 1);
        lemma_declare_potential(
            bound(scope, parameters, values, count - 1),
            parameters[count - 1],
            values[count - 1],
        );
    }
}

/// What holds of two evaluations of one step in one store that differ in the limit on nested
/// calls only, where both limits are at least `needed`: they have the same outcome, and
/// where they succeed, the store and the value that was yielded have no more weight than
/// the store had, more `gained`.
pub open spec fn is_unlimited(before: ScopeView, gained: nat, outcome: Outcome, other: Outcome) -> bool {
    &&& outcome == other
    &&& match outcome.result {
        Ok(value) => potential(outcome.scope.slots) + weight_of(value) <= potential(before.slots)
            + gained,
        Err(_) => true,
    }
}

/// A limit on nested calls that is at least the potential of the store more the number of
/// function definitions in the node plays no part in the outcome.
pub proof fn lemma_limit_plays_no_part(node: NodeView, scope: ScopeView, depth: nat, other: nat)
    requires
        scope.wf(),
        depth >= potential(scope.slots) + node_definitions(node),
        other >= potential(scope.slots) + node_definitions(node),
    ensures
        is_unlimited(
            scope,
            node_definitions(node),
            evaluate_spec(node, scope, depth),
            evaluate_spec(node, scope, other),
        ),
    decreases depth, node, 0int,
{
    match node {
        NodeView::Expression(expression) => {
            lemma_expression_is_unlimited(*expression, scope, depth, other);
        },
        NodeView::Statement(statement) => match *statement {
            StatementView::Variable { name, value } => {
                lemma_expression_is_unlimited(*value, scope, depth, other);
                let step = evaluate_expression_spec(*value, scope, depth);
                match step.result {
                    Ok(Some(data)) => {
                        lemma_declare_potential(step.scope, name, data);
                    },
                    _ => {},
                }
            },
            StatementView::Function { name, parameters, body } => {
                let opened = scope.open(scope.current, false);
                let function = DataView::Function {
                    parameters,
                    body: *body,
                    definition_scope: scope.frames.len(),
                };
                lemma_declare_potential(opened, name, function);
            },
        },
    }
}

proof fn lemma_expression_is_unlimited(
    expression: ExpressionView,
    scope: ScopeView,
    depth: nat,
    other: nat,
)
    requires
        scope.wf(),
        depth >= potential(scope.slots) + definitions(expression),
        other >= potential(scope.slots) + definitions(expression),
    ensures
        is_unlimited(
            scope,
            definitions(expression),
            evaluate_expression_spec(expression, scope, depth),
            evaluate_expression_spec(expression, scope, other),
        ),
    decreases depth, expression, 0int,
{
    match expression {
        ExpressionView::Number(_) => {},
        ExpressionView::Boolean(_) => {},
        ExpressionView::Identifier(name) => {
            lemma_resolve_potential(scope, name);
        },
        ExpressionView::Reference(name) => {
            scope.lemma_find_slot(scope.current, name);
            lemma_potential_same(scope.slots, scope.borrow(name).0.slots, scope.slots.len() as int);
        },
        ExpressionView::BinaryExpression { operator, left, right } => {
            lemma_expression_is_unlimited(*left, scope, depth, other);
            lemma_expression_is_sound(*left, scope, depth);
            let first = evaluate_expression_spec(*left, scope, depth);
            match first.result {
                Ok(Some(_)) => {
                    lemma_expression_is_unlimited(*right, first.scope, depth, other);
                },
                _ => {},
            }
        },
        ExpressionView::Call { name, arguments } => {
            lemma_call_is_unlimited(name, arguments, scope, depth, other);
            assert(evaluate_expression_spec(expression, scope, depth) == evaluate_call_spec(
                name,
                arguments,
                scope,
                depth,
            ));
            assert(evaluate_expression_spec(expression, scope, other) == evaluate_call_spec(
                name,
                arguments,
                scope,
                other,
            ));
        },
        ExpressionView::Block(nodes) => {
            let opened = scope.open(scope.current, true);
            scope.lemma_open(scope.current, true);
            lemma_sequence_is_unlimited(nodes, 0, opened, depth, other, None);
            let inner = evaluate_sequence_spec(nodes, 0, opened, depth, None);
            let locals = inner.scope.frames[scope.frames.len() as int].locals;
            lemma_destroyed_all_potential(inner.scope.slots, locals, locals.len() as int);
        },
        ExpressionView::Program(nodes) => {
            lemma_sequence_is_unlimited(nodes, 0, scope, depth, other, None);
        },
    }
}

proof fn lemma_sequence_is_unlimited(
    nodes: Seq<NodeView>,
    from: int,
    scope: ScopeView,
    depth: nat,
    other: nat,
    last: Option<DataView>,
)
    requires
        scope.wf(),
        match last {
            Some(data) => scope.holds(data),
            None => true,
        },
        depth >= potential(scope.slots) + node_definitions_from(nodes, from),
        other >= potential(scope.slots) + node_definitions_from(nodes, from),
    ensures
        is_unlimited(
            scope,
            weight_of(last) + node_definitions_from(nodes, from),
            evaluate_sequence_spec(nodes, from, scope, depth, last),
            evaluate_sequence_spec(nodes, from, scope, other, last),
        ),
    decreases depth, nodes, nodes.len() - from,
{
    if from < 0 || from >= nodes.len() {
    } else if nodes[from] is Expression {
        let before = match last {
            Some(data) => scope.release(data),
            None => scope,
        };
        match last {
            Some(data) => {
                scope.lemma_release(data);
                lemma_potential_same(scope.slots, before.slots, scope.slots.len() as int);
            },
            None => {},
        }
        lemma_limit_plays_no_part(nodes[from], before, depth, other);
        lemma_evaluation_is_sound(nodes[from], before, depth);
        let step = evaluate_spec(nodes[from], before, depth);
        match step.result {
            Err(_) => {},
            Ok(value) => {
                lemma_sequence_is_unlimited(nodes, from + 1, step.scope, depth, other, value);
            },
        }
    } else {
        lemma_limit_plays_no_part(nodes[from], scope, depth, other);
        lemma_evaluation_is_sound(nodes[from], scope, depth);
        let step = evaluate_spec(nodes[from], scope, depth);
        match step.result {
            Err(_) => {},
            Ok(value) => {
                assert(value is None);
                lemma_sequence_is_unlimited(nodes, from + 1, step.scope, depth, other, last);
            },
        }
    }
}

proof fn lemma_arguments_are_unlimited(
    arguments: Seq<ExpressionView>,
    from: int,
    scope: ScopeView,
    depth: nat,
    other: nat,
    values: Seq<DataView>,
)
    requires
        scope.wf(),
        all_held(scope, values),
        0 <= from,
        depth >= potential(scope.slots) + definitions_from(arguments, from),
        other >= potential(scope.slots) + definitions_from(arguments, from),
    ensures
        ({
            let evaluated = evaluate_arguments_spec(arguments, from, scope, depth, values);
            &&& evaluated == evaluate_arguments_spec(arguments, from, scope, other, values)
            &&& match evaluated.result {
                Ok(all) => {
                    &&& all.len() == values.len() + if from < arguments.len() {
                        arguments.len() - from
                    } else {
                        0
                    }
                    &&& potential(evaluated.scope.slots) + weights(all) <= potential(scope.slots)
                        + weights(values) + definitions_from(arguments, from)
                },
                Err(_) => true,
            }
        }),
    decreases depth, arguments, arguments.len() - from,
{
    if from >= arguments.len() {
    } else {
        lemma_expression_is_unlimited(arguments[from], scope, depth, other);
        lemma_expression_is_sound(arguments[from], scope, depth);
        let step = evaluate_expression_spec(arguments[from], scope, depth);
        match step.result {
            Ok(Some(data)) => {
                assert forall|j: int| 0 <= j < values.push(data).len() implies step.scope.holds(
                    #[trigger] values.push(data)[j],
                ) by {
                    if j < values.len() {
                        assert(scope.holds(values[j]));
                    }
                }
                lemma_weights_push(values, data);
                lemma_arguments_are_unlimited(
                    arguments,
                    from + 1,
                    step.scope,
                    depth,
                    other,
                    values.push(data),
                );
            },
            _ => {},
        }
    }
}

proof fn lemma_call_is_unlimited(
    name: Seq<char>,
    arguments: Seq<ExpressionView>,
    scope: ScopeView,
    depth: nat,
    other: nat,
)
    requires
        scope.wf(),
        depth >= potential(scope.slots) + definitions_from(arguments, 0),
        other >= potential(scope.slots) + definitions_from(arguments, 0),
    ensures
        is_unlimited(
            scope,
            definitions_from(arguments, 0),
            evaluate_call_spec(name, arguments, scope, depth),
            evaluate_call_spec(name, arguments, scope, other),
        ),
    decreases depth, arguments, arguments.len() + 1,
{
    scope.lemma_resolve(name);
    lemma_resolve_potential(scope, name);
    let (read, resolved) = scope.resolve(name);
    match resolved {
        Ok(DataView::Function { parameters, body, definition_scope }) => {
            if arguments.len() == parameters.len() {
                lemma_arguments_are_unlimited(arguments, 0, read, depth, other, Seq::empty());
                lemma_arguments_are_sound(arguments, 0, read, depth, Seq::empty());
                let evaluated = evaluate_arguments_spec(arguments, 0, read, depth, Seq::empty());
                match evaluated.result {
                    Ok(values) => {
                        let frame = evaluated.scope.frames.len();
                        let opened = evaluated.scope.open(definition_scope, true);
                        evaluated.scope.lemma_open(definition_scope, true);
                        assert(all_held(opened, values)) by {
                            assert forall|j: int| 0 <= j < values.len() implies opened.holds(
                                #[trigger] values[j],
                            ) by {
                                assert(evaluated.scope.holds(values[j]));
                            }
                        }
                        lemma_bound(opened, parameters, values, parameters.len() as int);
                        lemma_bound_potential(opened, parameters, values, parameters.len() as int);
                        let entered = bound(opened, parameters, values, parameters.len() as int);
                        assert(potential(entered.slots) + definitions(body) + 1 <= potential(
                            scope.slots,
                        ) + definitions_from(arguments, 0));
                        lemma_expression_is_unlimited(
                            body,
                            entered,
                            (depth - 1) as nat,
                            (other - 1) as nat,
                        );
                        let inner = evaluate_expression_spec(body, entered, (depth - 1) as nat);
                        let locals = inner.scope.frames[frame as int].locals;
                        lemma_destroyed_all_potential(inner.scope.slots, locals, locals.len() as int);
                    },
                    Err(_) => {},
                }
            }
        },
        _ => {},
    }
}

/// A program that is run in a fresh store makes no more nested calls than it defines
/// functions: every limit that is at least that number gives the same outcome.
pub proof fn lemma_program_is_unlimited(program: NodeView, depth: nat, other: nat)
    requires
        depth >= node_definitions(program),
        other >= node_definitions(program),
    ensures
        evaluate_spec(program, ScopeView::root(), depth) == evaluate_spec(
            program,
            ScopeView::root(),
            other,
        ),
{
    lemma_limit_plays_no_part(program, ScopeView::root(), depth, other);
}

} // verus!
