//! What holds of every evaluation.

use vstd::prelude::*;
use crate::interpreter::data::{DataView, SlotView};
use crate::interpreter::evaluation::{advances, leaves_no_binding};
use crate::interpreter::model::{
    destroyed, destroyed_all, keeps_values, lemma_position, position, use_of_moved, ScopeView,
};
use crate::interpreter::semantics::{
    arity_mismatch, bound, dropped, division_by_zero, evaluate_arguments_spec, evaluate_call_spec,
    evaluate_expression_spec, evaluate_sequence_spec, evaluate_spec, evaluate_statement_spec,
    not_callable, Outcome,
};
use crate::parser::expression::ExpressionView;
use crate::parser::node::NodeView;
use crate::parser::statement::StatementView;

verus! {

/// The texts of the four arithmetic operators differ from each other.
pub proof fn lemma_operator_texts()
    ensures
        "+"@ != "-"@,
        "+"@ != "*"@,
        "+"@ != "/"@,
        "-"@ != "*"@,
        "-"@ != "/"@,
        "*"@ != "/"@,
{
    reveal_strlit("/");
    reveal_strlit("+");
    reveal_strlit("-");
    reveal_strlit("*");
    assert("/"@[0] == '/');
    assert("+"@[0] == '+');
    assert("-"@[0] == '-');
    assert("*"@[0] == '*');
}

/// A quotient whose divisor evaluates to zero is the runtime error "Division by zero",
/// whatever the dividend.
pub proof fn lemma_division_by_zero_fails(
    left: ExpressionView,
    right: ExpressionView,
    scope: ScopeView,
    depth: nat,
    dividend: i32,
)
    requires
        evaluate_expression_spec(left, scope, depth).result == Ok::<Option<DataView>, Seq<char>>(
            Some(DataView::Number(dividend)),
        ),
        evaluate_expression_spec(
            right,
            evaluate_expression_spec(left, scope, depth).scope,
            depth,
        ).result == Ok::<Option<DataView>, Seq<char>>(Some(DataView::Number(0))),
    ensures
        evaluate_expression_spec(
            ExpressionView::BinaryExpression {
                operator: "/"@,
                left: Box::new(left),
                right: Box::new(right),
            },
            scope,
            depth,
        ).result == Err::<Option<DataView>, Seq<char>>(division_by_zero()),
{
    lemma_operator_texts();
}

/// A call with another number of arguments than the function has parameters is a runtime
/// error that names both numbers; no argument is evaluated.
pub proof fn lemma_arity_mismatch_fails(
    name: Seq<char>,
    arguments: Seq<ExpressionView>,
    scope: ScopeView,
    depth: nat,
)
    requires
        match scope.resolve(name).1 {
            Ok(DataView::Function { parameters, .. }) => parameters.len() != arguments.len(),
            _ => false,
        },
    ensures
        evaluate_expression_spec(ExpressionView::Call { name, arguments }, scope, depth).result
            == Err::<Option<DataView>, Seq<char>>(
            arity_mismatch(scope.resolve(name).1->Ok_0->Function_parameters.len(), arguments.len()),
        ),
        evaluate_expression_spec(ExpressionView::Call { name, arguments }, scope, depth).scope
            == scope.resolve(name).0,
{
    assert(evaluate_expression_spec(ExpressionView::Call { name, arguments }, scope, depth)
        == evaluate_call_spec(name, arguments, scope, depth));
    let (read, resolved) = scope.resolve(name);
    assert(resolved is Ok);
    assert(resolved->Ok_0 is Function);
    assert(evaluate_call_spec(name, arguments, scope, depth).scope == read);
}

/// A call of a name that holds anything but a function is a runtime error.
pub proof fn lemma_call_of_non_callable_fails(
    name: Seq<char>,
    arguments: Seq<ExpressionView>,
    scope: ScopeView,
    depth: nat,
)
    requires
        match scope.resolve(name).1 {
            Ok(data) => !(data is Function),
            Err(_) => false,
        },
    ensures
        evaluate_expression_spec(ExpressionView::Call { name, arguments }, scope, depth).result
            == Err::<Option<DataView>, Seq<char>>(not_callable(name)),
{
    assert(evaluate_expression_spec(ExpressionView::Call { name, arguments }, scope, depth)
        == evaluate_call_spec(name, arguments, scope, depth));
}

/// A read of a name whose value was moved out is a runtime error, and so is a call of it.
pub proof fn lemma_use_after_move_fails(
    name: Seq<char>,
    arguments: Seq<ExpressionView>,
    scope: ScopeView,
    depth: nat,
)
    requires
        match scope.find_slot(scope.current, name) {
            Some(id) => scope.slots[id as int].value is Moved
                && !scope.slots[id as int].is_mutably_borrowed,
            None => false,
        },
    ensures
        evaluate_expression_spec(ExpressionView::Identifier(name), scope, depth).result == Err::<
            Option<DataView>,
            Seq<char>,
        >(use_of_moved(name)),
        evaluate_expression_spec(ExpressionView::Call { name, arguments }, scope, depth).result
            == Err::<Option<DataView>, Seq<char>>(use_of_moved(name)),
{
    assert(evaluate_expression_spec(ExpressionView::Call { name, arguments }, scope, depth)
        == evaluate_call_spec(name, arguments, scope, depth));
}

proof fn lemma_keeps_values_chain(first: Seq<SlotView>, second: Seq<SlotView>, third: Seq<SlotView>)
    requires
        keeps_values(first, second),
        keeps_values(second, third),
    ensures
        keeps_values(first, third),
{
    assert forall|id: int| 0 <= id < first.len() implies {
        &&& (#[trigger] third[id]).is_mutably_borrowed == first[id].is_mutably_borrowed
        &&& {
            ||| third[id].value == first[id].value
            ||| third[id].value is Moved && !first[id].value.is_copyable()
        }
    } by {
        assert(second[id].is_mutably_borrowed == first[id].is_mutably_borrowed);
    }
}

proof fn lemma_destroyed_all_keeps(slots: Seq<SlotView>, locals: Seq<(Seq<char>, nat)>, count: int)
    ensures
        keeps_values(slots, destroyed_all(slots, locals, count)),
        destroyed_all(slots, locals, count).len() == slots.len(),
    decreases count,
{
    if count <= 0 || count > locals.len() {
    } else {
        lemma_destroyed_all_keeps(slots, locals, count - 1);
        let before = destroyed_all(slots, locals, count - 1);
        lemma_keeps_values_chain(slots, before, destroyed(before, locals[count - 1].1));
    }
}

proof fn lemma_bound_keeps(
    scope: ScopeView,
    parameters: Seq<Seq<char>>,
    values: Seq<DataView>,
    count: int,
)
    ensures
        keeps_values(scope.slots, bound(scope, parameters, values, count).slots),
    decreases count,
{
    if count <= 0 || count > parameters.len() || count > values.len() {
    } else {
        lemma_bound_keeps(scope, parameters, values, count - 1);
        let before = bound(scope, parameters, values, count - 1);
        lemma_keeps_values_chain(
            scope.slots,
            before.slots,
            before.declare(parameters[count - 1], values[count - 1]).slots,
        );
    }
}

/// What holds of the store after any evaluation in a well-formed store: it is well formed,
/// it has changed as [`advances`] says, no number or boolean in it was moved or changed, and
/// the value that was yielded, if there is one, belongs to it.
pub open spec fn is_sound(before: ScopeView, outcome: Outcome) -> bool {
    &&& outcome.scope.wf()
    &&& advances(before, outcome.scope)
    &&& keeps_values(before.slots, outcome.scope.slots)
    &&& match outcome.result {
        Ok(Some(data)) => outcome.scope.holds(data),
        _ => true,
    }
}

/// Whether every value of `values` belongs to the store `scope`.
pub open spec fn all_held(scope: ScopeView, values: Seq<DataView>) -> bool {
    forall|j: int| 0 <= j < values.len() ==> scope.holds(#[trigger] values[j])
}

/// Binding the parameters of a call keeps the store well formed, and changes the current
/// scope only.
pub proof fn lemma_bound(scope: ScopeView, parameters: Seq<Seq<char>>, values: Seq<DataView>, count: int)
    requires
        scope.wf(),
        all_held(scope, values),
    ensures
        bound(scope, parameters, values, count).wf(),
        bound(scope, parameters, values, count).current == scope.current,
        bound(scope, parameters, values, count).frames.len() == scope.frames.len(),
        bound(scope, parameters, values, count).slots.len() >= scope.slots.len(),
        bound(scope, parameters, values, count).frames[scope.current as int].parent
            == scope.frames[scope.current as int].parent,
        forall|f: int|
            0 <= f < scope.frames.len() && f != scope.current ==> #[trigger] bound(
                scope,
                parameters,
                values,
                count,
            ).frames[f] == scope.frames[f],
    decreases count,
{
    if count <= 0 || count > parameters.len() || count > values.len() {
    } else {
        lemma_bound(scope, parameters, values, count - 1);
        let before = bound(scope, parameters, values, count - 1);
        assert(scope.holds(values[count - 1]));
        before.lemma_declare(parameters[count - 1], values[count - 1]);
    }
}

/// Evaluation keeps the store well formed, whatever is evaluated and however it ends.
///
/// The store only grows; the current scope is the same before and after; no other scope
/// that was there gains or loses a binding; each scope that was opened on the way holds no
/// binding at the end; and the value that is yielded holds handles of this store only.
pub proof fn lemma_evaluation_is_sound(node: NodeView, scope: ScopeView, depth: nat)
    requires
        scope.wf(),
    ensures
        is_sound(scope, evaluate_spec(node, scope, depth)),
    decreases depth, node, 0int,
{
    match node {
        NodeView::Expression(expression) => {
            lemma_expression_is_sound(*expression, scope, depth);
        },
        NodeView::Statement(statement) => {
            lemma_statement_is_sound(*statement, scope, depth);
        },
    }
}

/// A statement keeps the store well formed.
pub proof fn lemma_statement_is_sound(statement: StatementView, scope: ScopeView, depth: nat)
    requires
        scope.wf(),
    ensures
        is_sound(scope, evaluate_statement_spec(statement, scope, depth)),
    decreases depth, statement, 0int,
{
    match statement {
        StatementView::Variable { name, value } => {
            lemma_expression_is_sound(*value, scope, depth);
            let step = evaluate_expression_spec(*value, scope, depth);
            match step.result {
                Ok(Some(data)) => {
                    step.scope.lemma_declare(name, data);
                    lemma_keeps_values_chain(
                        scope.slots,
                        step.scope.slots,
                        step.scope.declare(name, data).slots,
                    );
                },
                _ => {},
            }
        },
        StatementView::Function { name, parameters, body } => {
            let opened = scope.open(scope.current, false);
            scope.lemma_open(scope.current, false);
            let function = DataView::Function {
                parameters,
                body: *body,
                definition_scope: scope.frames.len(),
            };
            opened.lemma_declare(name, function);
        },
    }
}

/// The evaluation of a block leaves every scope that was there as it was, and leaves no
/// binding in the scope of the block nor in any scope that was opened within it.
pub proof fn lemma_block_leaves_no_binding(nodes: Seq<NodeView>, scope: ScopeView, depth: nat)
    requires
        scope.wf(),
    ensures
        evaluate_expression_spec(ExpressionView::Block(nodes), scope, depth).scope.wf(),
        leaves_no_binding(
            scope,
            evaluate_expression_spec(ExpressionView::Block(nodes), scope, depth).scope,
        ),
    decreases depth, nodes, nodes.len() + 1,
{
    let opened = scope.open(scope.current, true);
    scope.lemma_open(scope.current, true);
    lemma_sequence_is_sound(nodes, 0, opened, depth, None);
    let inner = evaluate_sequence_spec(nodes, 0, opened, depth, None);
    inner.scope.lemma_close(scope.frames.len(), scope.current);
    let after = inner.scope.close(scope.frames.len(), scope.current);
    assert forall|f: int| 0 <= f < scope.frames.len() implies #[trigger] after.frames[f]
        == scope.frames[f] by {
        assert(inner.scope.frames[f] == opened.frames[f]);
    }
    assert forall|f: int| scope.frames.len() <= f < after.frames.len() implies (
    #[trigger] after.frames[f]).locals.len() == 0 by {
        if f > scope.frames.len() {
            assert(inner.scope.frames[f].locals.len() == 0);
        }
    }
}

/// An expression keeps the store well formed.
pub proof fn lemma_expression_is_sound(expression: ExpressionView, scope: ScopeView, depth: nat)
    requires
        scope.wf(),
    ensures
        is_sound(scope, evaluate_expression_spec(expression, scope, depth)),
    decreases depth, expression, 0int,
{
    match expression {
        ExpressionView::Number(_) => {},
        ExpressionView::Boolean(_) => {},
        ExpressionView::Identifier(name) => {
            scope.lemma_resolve(name);
        },
        ExpressionView::Reference(name) => {
            scope.lemma_borrow(name);
        },
        ExpressionView::BinaryExpression { operator, left, right } => {
            lemma_expression_is_sound(*left, scope, depth);
            let first = evaluate_expression_spec(*left, scope, depth);
            match first.result {
                Ok(Some(_)) => {
                    lemma_expression_is_sound(*right, first.scope, depth);
                    let second = evaluate_expression_spec(*right, first.scope, depth);
                    lemma_keeps_values_chain(scope.slots, first.scope.slots, second.scope.slots);
                },
                _ => {},
            }
        },
        ExpressionView::Call { name, arguments } => {
            lemma_call_is_sound(name, arguments, scope, depth);
            assert(evaluate_expression_spec(expression, scope, depth) == evaluate_call_spec(
                name,
                arguments,
                scope,
                depth,
            ));
        },
        ExpressionView::Block(nodes) => {
            lemma_block_leaves_no_binding(nodes, scope, depth);
            let opened = scope.open(scope.current, true);
            scope.lemma_open(scope.current, true);
            lemma_sequence_is_sound(nodes, 0, opened, depth, None);
            let inner = evaluate_sequence_spec(nodes, 0, opened, depth, None);
            inner.scope.lemma_close(scope.frames.len(), scope.current);
            lemma_destroyed_all_keeps(
                inner.scope.slots,
                inner.scope.frames[scope.frames.len() as int].locals,
                inner.scope.frames[scope.frames.len() as int].locals.len() as int,
            );
            lemma_keeps_values_chain(
                scope.slots,
                inner.scope.slots,
                inner.scope.close(scope.frames.len(), scope.current).slots,
            );
        },
        ExpressionView::Program(nodes) => {
            lemma_sequence_is_sound(nodes, 0, scope, depth, None);
        },
    }
}

/// The nodes of a block or of a program keep the store well formed.
pub proof fn lemma_sequence_is_sound(
    nodes: Seq<NodeView>,
    from: int,
    scope: ScopeView,
    depth: nat,
    last: Option<DataView>,
)
    requires
        scope.wf(),
        match last {
            Some(data) => scope.holds(data),
            None => true,
        },
    ensures
        is_sound(scope, evaluate_sequence_spec(nodes, from, scope, depth, last)),
    decreases depth, nodes, nodes.len() - from,
{
    if from < 0 || from >= nodes.len() {
    } else if nodes[from] is Expression {
        let before = match last {
            Some(data) => scope.release(data),
            None => scope,
        };
        match last {
            Some(data) => {
                scope.lemma_release(data);
            },
            None => {},
        }
        lemma_evaluation_is_sound(nodes[from], before, depth);
        let step = evaluate_spec(nodes[from], before, depth);
        lemma_keeps_values_chain(scope.slots, before.slots, step.scope.slots);
        match step.result {
            Err(_) => {},
            Ok(value) => {
                lemma_sequence_is_sound(nodes, from + 1, step.scope, depth, value);
                lemma_keeps_values_chain(
                    scope.slots,
                    step.scope.slots,
                    evaluate_sequence_spec(nodes, from + 1, step.scope, depth, value).scope.slots,
                );
            },
        }
    } else {
        lemma_evaluation_is_sound(nodes[from], scope, depth);
        let step = evaluate_spec(nodes[from], scope, depth);
        match step.result {
            Err(_) => {},
            Ok(_) => {
                lemma_sequence_is_sound(nodes, from + 1, step.scope, depth, last);
                lemma_keeps_values_chain(
                    scope.slots,
                    step.scope.slots,
                    evaluate_sequence_spec(nodes, from + 1, step.scope, depth, last).scope.slots,
                );
            },
        }
    }
}

/// Dropping values keeps the store well formed, and changes nothing but borrow counts.
pub proof fn lemma_dropped(scope: ScopeView, values: Seq<DataView>)
    requires
        scope.wf(),
    ensures
        dropped(scope, values).wf(),
        dropped(scope, values).frames == scope.frames,
        dropped(scope, values).current == scope.current,
        dropped(scope, values).slots.len() == scope.slots.len(),
        keeps_values(scope.slots, dropped(scope, values).slots),
    decreases values.len(),
{
    if values.len() > 0 {
        scope.lemma_release(values.last());
        lemma_dropped(scope.release(values.last()), values.drop_last());
        lemma_keeps_values_chain(
            scope.slots,
            scope.release(values.last()).slots,
            dropped(scope, values).slots,
        );
    }
}

/// The arguments of a call keep the store well formed, and their values belong to it.
pub proof fn lemma_arguments_are_sound(
    arguments: Seq<ExpressionView>,
    from: int,
    scope: ScopeView,
    depth: nat,
    values: Seq<DataView>,
)
    requires
        scope.wf(),
        all_held(scope, values),
    ensures
        ({
            let evaluated = evaluate_arguments_spec(arguments, from, scope, depth, values);
            &&& evaluated.scope.wf()
            &&& advances(scope, evaluated.scope)
            &&& keeps_values(scope.slots, evaluated.scope.slots)
            &&& match evaluated.result {
                Ok(all) => all_held(evaluated.scope, all),
                Err(_) => true,
            }
        }),
    decreases depth, arguments, arguments.len() - from,
{
    if from < 0 || from >= arguments.len() {
    } else {
        lemma_expression_is_sound(arguments[from], scope, depth);
        let step = evaluate_expression_spec(arguments[from], scope, depth);
        match step.result {
            Ok(Some(data)) => {
                assert forall|j: int| 0 <= j < values.push(data).len() implies step.scope.holds(
                    #[trigger] values.push(data)[j],
                ) by {
                    if j < values.len() {
                        assert(scope.holds(values[j]));
                    }
                }
                lemma_arguments_are_sound(arguments, from + 1, step.scope, depth, values.push(data));
                lemma_keeps_values_chain(
                    scope.slots,
                    step.scope.slots,
                    evaluate_arguments_spec(
                        arguments,
                        from + 1,
                        step.scope,
                        depth,
                        values.push(data),
                    ).scope.slots,
                );
            },
            _ => {
                lemma_dropped(step.scope, values);
                lemma_keeps_values_chain(
                    scope.slots,
                    step.scope.slots,
                    dropped(step.scope, values).slots,
                );
            },
        }
    }
}

/// A call keeps the store well formed.
pub proof fn lemma_call_is_sound(
    name: Seq<char>,
    arguments: Seq<ExpressionView>,
    scope: ScopeView,
    depth: nat,
)
    requires
        scope.wf(),
    ensures
        is_sound(scope, evaluate_call_spec(name, arguments, scope, depth)),
    decreases depth, arguments, arguments.len() + 1,
{
    scope.lemma_resolve(name);
    let (read, resolved) = scope.resolve(name);
    match resolved {
        Ok(DataView::Function { parameters, body, definition_scope }) => {
            if arguments.len() == parameters.len() {
                lemma_arguments_are_sound(arguments, 0, read, depth, Seq::empty());
                let evaluated = evaluate_arguments_spec(arguments, 0, read, depth, Seq::empty());
                lemma_keeps_values_chain(scope.slots, read.slots, evaluated.scope.slots);
                match evaluated.result {
                    Ok(values) => {
                        if depth > 0 {
                            let frame = evaluated.scope.frames.len();
                            let opened = evaluated.scope.open(definition_scope, true);
                            evaluated.scope.lemma_open(definition_scope, true);
                            assert(all_held(opened, values)) by {
                                assert forall|j: int| 0 <= j < values.len() implies opened.holds(
                                    #[trigger] values[j],
                                ) by {
                                    assert(evaluated.scope.holds(values[j]));
                                }
                            }
                            lemma_bound(opened, parameters, values, parameters.len() as int);
                            let entered = bound(opened, parameters, values, parameters.len() as int);
                            lemma_expression_is_sound(body, entered, (depth - 1) as nat);
                            let inner = evaluate_expression_spec(body, entered, (depth - 1) as nat);
                            inner.scope.lemma_close(frame, scope.current);
                            let after = inner.scope.close(frame, scope.current);
                            lemma_bound_keeps(opened, parameters, values, parameters.len() as int);
                            lemma_destroyed_all_keeps(
                                inner.scope.slots,
                                inner.scope.frames[frame as int].locals,
                                inner.scope.frames[frame as int].locals.len() as int,
                            );
                            lemma_keeps_values_chain(
                                scope.slots,
                                evaluated.scope.slots,
                                entered.slots,
                            );
                            lemma_keeps_values_chain(scope.slots, entered.slots, inner.scope.slots);
                            lemma_keeps_values_chain(scope.slots, inner.scope.slots, after.slots);
                            assert forall|f: int|
                                0 <= f < scope.frames.len() && f != scope.current implies #[trigger] after.frames[f]
                                == scope.frames[f] by {
                                assert(inner.scope.frames[f] == entered.frames[f]);
                                assert(entered.frames[f] == opened.frames[f]);
                                assert(evaluated.scope.frames[f] == read.frames[f]);
                            }
                            assert forall|f: int|
                                scope.frames.len() <= f < after.frames.len() implies (
                            #[trigger] after.frames[f]).locals.len() == 0 by {
                                if f < frame {
                                    assert(inner.scope.frames[f] == entered.frames[f]);
                                    assert(entered.frames[f] == opened.frames[f]);
                                    assert(evaluated.scope.frames[f].locals.len() == 0);
                                } else if f > frame {
                                    assert(inner.scope.frames[f].locals.len() == 0);
                                }
                            }
                            assert(after.frames[scope.current as int].parent
                                == scope.frames[scope.current as int].parent) by {
                                assert(inner.scope.frames[scope.current as int]
                                    == entered.frames[scope.current as int]);
                                assert(entered.frames[scope.current as int]
                                    == opened.frames[scope.current as int]);
                            }
                        } else {
                            lemma_dropped(evaluated.scope, values);
                            lemma_keeps_values_chain(
                                scope.slots,
                                evaluated.scope.slots,
                                dropped(evaluated.scope, values).slots,
                            );
                        }
                    },
                    Err(_) => {},
                }
            }
        },
        Ok(data) => {
            read.lemma_release(data);
            lemma_keeps_values_chain(scope.slots, read.slots, read.release(data).slots);
        },
        Err(_) => {},
    }
}

/// After a block, the slots that were made within it are out of reach: from whatever scope a
/// name is looked up, it resolves to a slot that was there before the block, and no slot of
/// the store, old or new, holds a reference to a slot that was made within. The one thing
/// that may still refer to such a slot is the value that the block yielded.
///
/// `before` and `after` are the stores before and after the block, which
/// [`leaves_no_binding`] relates.
pub proof fn lemma_block_slots_are_out_of_reach(
    before: ScopeView,
    after: ScopeView,
    frame: nat,
    name: Seq<char>,
)
    requires
        before.wf(),
        after.wf(),
        leaves_no_binding(before, after),
    ensures
        match after.find_slot(frame, name) {
            Some(id) => id < before.slots.len(),
            None => true,
        },
        forall|id: int|
            0 <= id < after.slots.len() ==> match (#[trigger] after.slots[id]).value {
                DataView::Reference(target) => id < before.slots.len() && target
                    < before.slots.len(),
                _ => true,
            },
    decreases frame,
{
    assert forall|id: int| 0 <= id < after.slots.len() implies match (
    #[trigger] after.slots[id]).value {
        DataView::Reference(target) => id < before.slots.len() && target < before.slots.len(),
        _ => true,
    } by {
        assert(after.slots[id].value.fits(id as nat, after.frames.len()));
        if after.slots[id].value is Reference {
            assert(after.binds(id as nat));
            let (f, k) = choose|f: int, k: int|
                0 <= f < after.frames.len() && 0 <= k < after.frames[f].locals.len() && (
                #[trigger] after.frames[f].locals[k]).1 == id;
            if f < before.frames.len() {
                assert(after.frames[f] == before.frames[f]);
                assert(before.frames[f].locals[k].1 < before.slots.len());
            } else {
                assert(after.frames[f].locals.len() == 0);
            }
        }
    }
    if frame < after.frames.len() {
        let locals = after.frames[frame as int].locals;
        lemma_position(locals, name, 0);
        match position(locals, name) {
            Some(k) => {
                assert(frame < before.frames.len());
                assert(after.frames[frame as int] == before.frames[frame as int]);
                assert(before.frames[frame as int].locals[k].1 < before.slots.len());
            },
            None => match after.frames[frame as int].parent {
                Some(p) => {
                    if p < frame {
                        lemma_block_slots_are_out_of_reach(before, after, p, name);
                    }
                },
                None => {},
            },
        }
    }
}

/// Whether an expression holds no borrow and no function definition, however deep.
pub open spec fn is_plain_expression(expression: ExpressionView) -> bool
    decreases expression,
{
    match expression {
        ExpressionView::Number(_) => true,
        ExpressionView::Boolean(_) => true,
        ExpressionView::Identifier(_) => true,
        ExpressionView::Reference(_) => false,
        ExpressionView::BinaryExpression { left, right, .. } => is_plain_expression(*left)
            && is_plain_expression(*right),
        ExpressionView::Call { arguments, .. } => forall|i: int|
            0 <= i < arguments.len() ==> is_plain_expression(#[trigger] arguments[i]),
        ExpressionView::Block(nodes) => forall|i: int|
            0 <= i < nodes.len() ==> is_plain_node(#[trigger] nodes[i]),
        ExpressionView::Program(nodes) => forall|i: int|
            0 <= i < nodes.len() ==> is_plain_node(#[trigger] nodes[i]),
    }
}

/// Whether a node holds no borrow and no function definition, however deep.
pub open spec fn is_plain_node(node: NodeView) -> bool
    decreases node,
{
    match node {
        NodeView::Expression(expression) => is_plain_expression(*expression),
        NodeView::Statement(statement) => match *statement {
            StatementView::Variable { value, .. } => is_plain_expression(*value),
            StatementView::Function { .. } => false,
        },
    }
}

/// Whether every slot of the store holds a number or a boolean.
pub open spec fn all_copyable(scope: ScopeView) -> bool {
    forall|id: int| 0 <= id < scope.slots.len() ==> (#[trigger] scope.slots[id]).value.is_copyable()
}

/// Whether `after` holds every slot of `before`, as it was.
pub open spec fn untouched(before: ScopeView, after: ScopeView) -> bool {
    &&& after.slots.len() >= before.slots.len()
    &&& forall|id: int| 0 <= id < before.slots.len() ==> #[trigger] after.slots[id] == before.slots[id]
}

/// What holds of the outcome of a plain node in a store of numbers and booleans: it is the
/// same with any other limit on nested calls, the store is still one of numbers and
/// booleans, every slot that was there is as it was, and the value, if there is one, is a
/// number or a boolean.
pub open spec fn is_pure(before: ScopeView, outcome: Outcome, other: Outcome) -> bool {
    &&& outcome == other
    &&& outcome.scope.wf()
    &&& outcome.scope.frames.len() >= before.frames.len()
    &&& all_copyable(outcome.scope)
    &&& untouched(before, outcome.scope)
    &&& match outcome.result {
        Ok(Some(data)) => data.is_copyable(),
        _ => true,
    }
}

proof fn lemma_destroyed_all_copyable(slots: Seq<SlotView>, locals: Seq<(Seq<char>, nat)>, count: int)
    requires
        forall|id: int| 0 <= id < slots.len() ==> (#[trigger] slots[id]).value.is_copyable(),
    ensures
        destroyed_all(slots, locals, count) == slots,
    decreases count,
{
    if count <= 0 || count > locals.len() {
    } else {
        lemma_destroyed_all_copyable(slots, locals, count - 1);
    }
}

proof fn lemma_declare_copyable(scope: ScopeView, name: Seq<char>, data: DataView)
    requires
        scope.wf(),
        all_copyable(scope),
        data.is_copyable(),
    ensures
        scope.declare(name, data).wf(),
        all_copyable(scope.declare(name, data)),
        untouched(scope, scope.declare(name, data)),
{
    scope.lemma_declare(name, data);
}

/// Evaluating a program that holds no borrow and no function definition, in a store that
/// holds numbers and booleans only, is a function of the tree and of the values that its
/// names are bound to: it moves nothing, counts no borrow, changes no slot that was there,
/// yields a number or a boolean where it yields a value, and does not depend on the limit on
/// nested calls.
pub proof fn lemma_plain_evaluation_is_pure(
    node: NodeView,
    scope: ScopeView,
    depth: nat,
    other_depth: nat,
)
    requires
        is_plain_node(node),
        scope.wf(),
        all_copyable(scope),
    ensures
        is_pure(
            scope,
            evaluate_spec(node, scope, depth),
            evaluate_spec(node, scope, other_depth),
        ),
    decreases node, 0int,
{
    match node {
        NodeView::Expression(expression) => {
            lemma_plain_expression_is_pure(*expression, scope, depth, other_depth);
        },
        NodeView::Statement(statement) => match *statement {
            StatementView::Variable { name, value } => {
                lemma_plain_expression_is_pure(*value, scope, depth, other_depth);
                let step = evaluate_expression_spec(*value, scope, depth);
                match step.result {
                    Ok(Some(data)) => {
                        lemma_declare_copyable(step.scope, name, data);
                    },
                    _ => {},
                }
            },
            StatementView::Function { .. } => {},
        },
    }
}

proof fn lemma_plain_expression_is_pure(
    expression: ExpressionView,
    scope: ScopeView,
    depth: nat,
    other_depth: nat,
)
    requires
        is_plain_expression(expression),
        scope.wf(),
        all_copyable(scope),
    ensures
        is_pure(
            scope,
            evaluate_expression_spec(expression, scope, depth),
            evaluate_expression_spec(expression, scope, other_depth),
        ),
    decreases expression, 0int,
{
    match expression {
        ExpressionView::Number(_) => {},
        ExpressionView::Boolean(_) => {},
        ExpressionView::Identifier(name) => {
            scope.lemma_resolve(name);
            scope.lemma_find_slot(scope.current, name);
        },
        ExpressionView::Reference(_) => {},
        ExpressionView::BinaryExpression { operator, left, right } => {
            lemma_plain_expression_is_pure(*left, scope, depth, other_depth);
            let first = evaluate_expression_spec(*left, scope, depth);
            match first.result {
                Ok(Some(_)) => {
                    lemma_plain_expression_is_pure(*right, first.scope, depth, other_depth);
                },
                _ => {},
            }
        },
        ExpressionView::Call { name, arguments } => {
            scope.lemma_resolve(name);
            scope.lemma_find_slot(scope.current, name);
            assert(evaluate_expression_spec(expression, scope, depth) == evaluate_call_spec(
                name,
                arguments,
                scope,
                depth,
            ));
            assert(evaluate_expression_spec(expression, scope, other_depth) == evaluate_call_spec(
                name,
                arguments,
                scope,
                other_depth,
            ));
        },
        ExpressionView::Block(nodes) => {
            let opened = scope.open(scope.current, true);
            scope.lemma_open(scope.current, true);
            lemma_plain_sequence_is_pure(nodes, 0, opened, depth, other_depth, None);
            let inner = evaluate_sequence_spec(nodes, 0, opened, depth, None);
            let locals = inner.scope.frames[scope.frames.len() as int].locals;
            inner.scope.lemma_close(scope.frames.len(), scope.current);
            lemma_destroyed_all_copyable(inner.scope.slots, locals, locals.len() as int);
        },
        ExpressionView::Program(nodes) => {
            lemma_plain_sequence_is_pure(nodes, 0, scope, depth, other_depth, None);
        },
    }
}

proof fn lemma_plain_sequence_is_pure(
    nodes: Seq<NodeView>,
    from: int,
    scope: ScopeView,
    depth: nat,
    other_depth: nat,
    last: Option<DataView>,
)
    requires
        forall|i: int| 0 <= i < nodes.len() ==> is_plain_node(#[trigger] nodes[i]),
        scope.wf(),
        all_copyable(scope),
        match last {
            Some(data) => data.is_copyable(),
            None => true,
        },
    ensures
        is_pure(
            scope,
            evaluate_sequence_spec(nodes, from, scope, depth, last),
            evaluate_sequence_spec(nodes, from, scope, other_depth, last),
        ),
    decreases nodes, nodes.len() - from,
{
    if from < 0 || from >= nodes.len() {
    } else {
        lemma_plain_evaluation_is_pure(nodes[from], scope, depth, other_depth);
        let step = evaluate_spec(nodes[from], scope, depth);
        match step.result {
            Err(_) => {},
            Ok(value) => {
                let next = if nodes[from] is Expression {
                    value
                } else {
                    last
                };
                lemma_plain_sequence_is_pure(nodes, from + 1, step.scope, depth, other_depth, next);
            },
        }
    }
}

} // verus!
