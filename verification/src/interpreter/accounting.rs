//! The borrow count of a slot is the number of references to it.
//!
//! A reference to a slot is either held by a slot, as the value of a binding, or it is in the
//! hands of the evaluator: the value of an expression that was evaluated and is not yet bound,
//! dropped or returned. The theorems of this module say that evaluation counts both, and
//! that it leaves nothing in hand but what it yields: where it fails, every reference that
//! it made and did not bind is given back.

use vstd::prelude::*;
use crate::interpreter::data::{DataView, SlotView};
use crate::interpreter::model::{
    destroyed, destroyed_all, lemma_destroyed, lemma_destroyed_all, lemma_position, position,
    returned, ScopeView,
};
use crate::interpreter::semantics::{
    bound, dropped, evaluate_arguments_spec, evaluate_call_spec, evaluate_expression_spec,
    evaluate_sequence_spec, evaluate_spec, released, Outcome,
};
use crate::interpreter::theorems::{
    all_held, lemma_arguments_are_sound, lemma_bound, lemma_evaluation_is_sound,
    lemma_expression_is_sound, lemma_sequence_is_sound,
};
use crate::parser::expression::ExpressionView;
use crate::parser::node::NodeView;
use crate::parser::statement::StatementView;

verus! {

/// One where `data` is a reference to `target`, else zero.
pub open spec fn refers(data: DataView, target: nat) -> nat {
    if data == DataView::Reference(target) {
        1
    } else {
        0
    }
}

/// The number of slots among the first `upto` of `slots` that hold a reference to `target`.
pub open spec fn held_in(slots: Seq<SlotView>, target: nat, upto: int) -> nat
    decreases upto,
{
    if upto <= 0 || upto > slots.len() {
        0
    } else {
        held_in(slots, target, upto - 1) + refers(slots[upto - 1].value, target)
    }
}

/// The number of slots that hold a reference to `target`.
pub open spec fn held(slots: Seq<SlotView>, target: nat) -> nat {
    held_in(slots, target, slots.len() as int)
}

/// The number of references to `target` that are counted and that no slot holds: those in
/// the hands of the evaluator. Zero for a slot that does not exist.
pub open spec fn in_hand(slots: Seq<SlotView>, target: nat) -> int {
    if target < slots.len() {
        slots[target as int].borrow_count - held(slots, target)
    } else {
        0
    }
}

/// Whether every reference that a slot holds is counted: the borrow count of each slot is at
/// least the number of slots that hold a reference to it.
pub open spec fn counted(slots: Seq<SlotView>) -> bool {
    forall|target: nat| #![trigger in_hand(slots, target)] in_hand(slots, target) >= 0
}

/// The number of references to `target` among the first `upto` of `values`.
pub open spec fn carried_in(values: Seq<DataView>, target: nat, upto: int) -> nat
    decreases upto,
{
    if upto <= 0 || upto > values.len() {
        0
    } else {
        carried_in(values, target, upto - 1) + refers(values[upto - 1], target)
    }
}

/// The number of references to `target` among `values`.
pub open spec fn carried(values: Seq<DataView>, target: nat) -> nat {
    carried_in(values, target, values.len() as int)
}

/// Slots that agree on their values up to `upto` hold as many references up to there.
pub proof fn lemma_held_in_same(first: Seq<SlotView>, second: Seq<SlotView>, target: nat, upto: int)
    requires
        upto <= first.len(),
        upto <= second.len(),
        forall|id: int| 0 <= id < upto ==> (#[trigger] first[id]).value == second[id].value,
    ensures
        held_in(first, target, upto) == held_in(second, target, upto),
    decreases upto,
{
    if upto > 0 {
        lemma_held_in_same(first, second, target, upto - 1);
    }
}

/// Replacing the value of one slot changes the number of references that are held by what
/// the two values refer to.
pub proof fn lemma_held_in_update(
    slots: Seq<SlotView>,
    id: int,
    slot: SlotView,
    target: nat,
    upto: int,
)
    requires
        0 <= id < slots.len(),
        0 <= upto <= slots.len(),
    ensures
        held_in(slots.update(id, slot), target, upto) + (if id < upto {
            refers(slots[id].value, target)
        } else {
            0
        }) == held_in(slots, target, upto) + (if id < upto {
            refers(slot.value, target)
        } else {
            0
        }),
    decreases upto,
{
    if upto > 0 {
        lemma_held_in_update(slots, id, slot, target, upto - 1);
    }
}

/// No slot holds a reference to a slot that is as young as itself or younger.
pub proof fn lemma_held_in_young(scope: ScopeView, target: nat, upto: int)
    requires
        scope.wf(),
        upto <= target + 1,
    ensures
        held_in(scope.slots, target, upto) == 0,
    decreases upto,
{
    if upto <= 0 || upto > scope.slots.len() {
    } else {
        lemma_held_in_young(scope, target, upto - 1);
        assert(scope.slots[upto - 1].value.fits((upto - 1) as nat, scope.frames.len()));
    }
}

/// No slot holds a reference to a slot that does not exist.
pub proof fn lemma_held_beyond(scope: ScopeView, target: nat)
    requires
        scope.wf(),
        target >= scope.slots.len(),
    ensures
        held(scope.slots, target) == 0,
{
    lemma_held_in_young(scope, target, scope.slots.len() as int);
}

/// What giving back a reference to `target` does to the references in hand: there is one
/// less to `target`, where there was one, and as many to every other slot.
pub proof fn lemma_returned_in_hand(slots: Seq<SlotView>, target: nat, other: nat)
    requires
        in_hand(slots, target) >= 1,
    ensures
        in_hand(returned(slots, target), other) == in_hand(slots, other) - (if other == target {
            1int
        } else {
            0int
        }),
{
    lemma_held_in_same(slots, returned(slots, target), other, slots.len() as int);
}

/// Destroying a slot leaves as many references in hand as there were: the reference that the
/// slot held is no longer held, and no longer counted.
pub proof fn lemma_destroyed_in_hand(scope: ScopeView, id: nat, other: nat)
    requires
        scope.wf(),
        counted(scope.slots),
    ensures
        in_hand(destroyed(scope.slots, id), other) == in_hand(scope.slots, other),
{
    let slots = scope.slots;
    if id < slots.len() {
        match slots[id as int].value {
            DataView::Reference(target) => {
                assert(slots[id as int].value.fits(id, scope.frames.len()));
                let after = returned(slots, target);
                lemma_held_in_same(slots, after, other, slots.len() as int);
                lemma_held_in_update(
                    after,
                    id as int,
                    SlotView { value: DataView::Moved, ..after[id as int] },
                    other,
                    after.len() as int,
                );
                assert(in_hand(slots, target) >= 0);
                lemma_held_positive(slots, id as int, target, slots.len() as int);
            },
            _ => {},
        }
    }
}

/// A slot that holds a reference to `target` is one of those that are counted as holding
/// one.
pub proof fn lemma_held_positive(slots: Seq<SlotView>, id: int, target: nat, upto: int)
    requires
        0 <= id < upto <= slots.len(),
        slots[id].value == DataView::Reference(target),
    ensures
        held_in(slots, target, upto) >= 1,
    decreases upto,
{
    if id < upto - 1 {
        lemma_held_positive(slots, id, target, upto - 1);
    }
}

/// A fresh slot adds the reference that it holds to those that are held.
pub proof fn lemma_held_push(slots: Seq<SlotView>, slot: SlotView, target: nat)
    ensures
        held(slots.push(slot), target) == held(slots, target) + refers(slot.value, target),
{
    lemma_held_in_same(slots, slots.push(slot), target, slots.len() as int);
}

/// Destroying the slots of a scope leaves as many references in hand as there were.
pub proof fn lemma_destroyed_all_in_hand(
    scope: ScopeView,
    locals: Seq<(Seq<char>, nat)>,
    count: int,
    other: nat,
)
    requires
        scope.wf(),
        counted(scope.slots),
    ensures
        in_hand(destroyed_all(scope.slots, locals, count), other) == in_hand(scope.slots, other),
        counted(destroyed_all(scope.slots, locals, count)),
    decreases count,
{
    if count <= 0 || count > locals.len() {
    } else {
        let before = destroyed_all(scope.slots, locals, count - 1);
        lemma_destroyed_all(scope.slots, locals, count - 1);
        scope.lemma_with_slots_wf(before);
        lemma_destroyed_all_in_hand(scope, locals, count - 1, other);
        lemma_destroyed_in_hand(scope.with_slots(before), locals[count - 1].1, other);
        assert forall|target: nat| #![trigger in_hand(destroyed_all(scope.slots, locals, count), target)]
            in_hand(destroyed_all(scope.slots, locals, count), target) >= 0 by {
            lemma_destroyed_all_in_hand(scope, locals, count - 1, target);
            lemma_destroyed_in_hand(scope.with_slots(before), locals[count - 1].1, target);
            assert(in_hand(scope.slots, target) >= 0);
        }
    }
}

impl ScopeView {
    /// A read that moves a reference out of its slot puts it in hand; any other read leaves
    /// the references as they are.
    pub proof fn lemma_resolve_in_hand(self, name: Seq<char>, target: nat)
        requires
            self.wf(),
            counted(self.slots),
        ensures
            in_hand(self.resolve(name).0.slots, target) == in_hand(self.slots, target)
                + match self.resolve(name).1 {
                Ok(data) => refers(data, target) as int,
                Err(_) => 0int,
            },
    {
        self.lemma_find_slot(self.current, name);
        match self.find_slot(self.current, name) {
            None => {},
            Some(id) => {
                let slot = self.slots[id as int];
                assert(slot.value.fits(id, self.frames.len()));
                lemma_held_in_update(
                    self.slots,
                    id as int,
                    SlotView { value: DataView::Moved, ..slot },
                    target,
                    self.slots.len() as int,
                );
            },
        }
    }

    /// A borrow puts one reference to the slot in hand, and counts it.
    pub proof fn lemma_borrow_in_hand(self, name: Seq<char>, target: nat)
        requires
            self.wf(),
            counted(self.slots),
        ensures
            in_hand(self.borrow(name).0.slots, target) == in_hand(self.slots, target)
                + match self.borrow(name).1 {
                Ok(data) => refers(data, target) as int,
                Err(_) => 0int,
            },
    {
        self.lemma_find_slot(self.current, name);
        match self.find_slot(self.current, name) {
            None => {},
            Some(id) => {
                lemma_held_in_same(
                    self.slots,
                    self.borrow(name).0.slots,
                    target,
                    self.slots.len() as int,
                );
            },
        }
    }

    /// Dropping a reference that is in hand takes it out of hand, and out of the count.
    pub proof fn lemma_release_in_hand(self, data: DataView, target: nat)
        requires
            self.wf(),
            counted(self.slots),
            match data {
                DataView::Reference(source) => in_hand(self.slots, source) >= 1,
                _ => true,
            },
        ensures
            in_hand(self.release(data).slots, target) == in_hand(self.slots, target) - refers(
                data,
                target,
            ),
    {
        match data {
            DataView::Reference(source) => {
                lemma_returned_in_hand(self.slots, source, target);
            },
            _ => {},
        }
    }

    /// Binding a reference that is in hand takes it out of hand: a slot holds it now.
    pub proof fn lemma_declare_in_hand(self, name: Seq<char>, data: DataView, target: nat)
        requires
            self.wf(),
            counted(self.slots),
            self.holds(data),
        ensures
            in_hand(self.declare(name, data).slots, target) == in_hand(self.slots, target) - refers(
                data,
                target,
            ),
    {
        let frame = self.frames[self.current as int];
        let fresh = SlotView { value: data, borrow_count: 0, is_mutably_borrowed: false };
        lemma_position(frame.locals, name, 0);
        let before = match position(frame.locals, name) {
            Some(k) => destroyed(self.slots, frame.locals[k].1),
            None => self.slots,
        };
        match position(frame.locals, name) {
            Some(k) => {
                lemma_destroyed_in_hand(self, frame.locals[k].1, target);
                lemma_destroyed(self.slots, frame.locals[k].1);
            },
            None => {},
        }
        assert(self.declare(name, data).slots == before.push(fresh));
        lemma_held_push(before, fresh, target);
        if target == self.slots.len() {
            lemma_destroyed(self.slots, self.slots.len());
            self.lemma_with_slots_wf(before);
            lemma_held_beyond(self.with_slots(before), target);
        } else if target > self.slots.len() {
        } else {
            assert(before.push(fresh)[target as int] == before[target as int]);
        }
    }

    /// The end of a scope leaves as many references in hand as there were.
    pub proof fn lemma_close_in_hand(self, frame: nat, restore: nat, target: nat)
        requires
            self.wf(),
            counted(self.slots),
        ensures
            in_hand(self.close(frame, restore).slots, target) == in_hand(self.slots, target),
            counted(self.close(frame, restore).slots),
    {
        let locals = self.frames[frame as int].locals;
        lemma_destroyed_all_in_hand(self, locals, locals.len() as int, target);
    }
}

/// One where `value` is a reference to `target`, else zero.
pub open spec fn yields(value: Option<DataView>, target: nat) -> nat {
    match value {
        Some(data) => refers(data, target),
        None => 0,
    }
}

/// One where `result` is a reference to `target` that was yielded, else zero.
pub open spec fn gained(result: Result<Option<DataView>, Seq<char>>, target: nat) -> nat {
    match result {
        Ok(value) => yields(value, target),
        Err(_) => 0,
    }
}

/// Whether the references are counted after a step that began in the store `scope` with the
/// value `given` in hand, to be dropped or yielded: every reference that a slot holds is
/// counted, and there is in hand what was, less `given`, more the value that the step
/// yielded. A step that fails yields nothing, so it leaves in hand what was there, less
/// `given`: every reference that it made is given back.
pub open spec fn keeps_count(scope: ScopeView, given: Option<DataView>, outcome: Outcome) -> bool {
    &&& counted(outcome.scope.slots)
    &&& forall|target: nat|
        #![trigger in_hand(outcome.scope.slots, target)]
        in_hand(outcome.scope.slots, target) == in_hand(scope.slots, target) - yields(given, target)
            + gained(outcome.result, target)
}

/// The references among the first values are among all of them.
pub proof fn lemma_carried_in_grows(values: Seq<DataView>, target: nat, upto: int, further: int)
    requires
        0 <= upto <= further <= values.len(),
    ensures
        carried_in(values, target, upto) <= carried_in(values, target, further),
    decreases further - upto,
{
    if upto < further {
        lemma_carried_in_grows(values, target, upto, further - 1);
    }
}

/// One more value carries the reference that it is.
pub proof fn lemma_carried_push(values: Seq<DataView>, data: DataView, target: nat)
    ensures
        carried(values.push(data), target) == carried(values, target) + refers(data, target),
{
    lemma_carried_in_same(values, values.push(data), target, values.len() as int);
}

/// Values that agree up to `upto` carry as many references up to there.
pub proof fn lemma_carried_in_same(
    first: Seq<DataView>,
    second: Seq<DataView>,
    target: nat,
    upto: int,
)
    requires
        upto <= first.len(),
        upto <= second.len(),
        forall|j: int| 0 <= j < upto ==> #[trigger] first[j] == second[j],
    ensures
        carried_in(first, target, upto) == carried_in(second, target, upto),
    decreases upto,
{
    if upto > 0 {
        lemma_carried_in_same(first, second, target, upto - 1);
    }
}

/// Binding the arguments of a call takes the references among them out of hand.
pub proof fn lemma_bound_in_hand(
    scope: ScopeView,
    parameters: Seq<Seq<char>>,
    values: Seq<DataView>,
    count: int,
)
    requires
        scope.wf(),
        counted(scope.slots),
        all_held(scope, values),
        0 <= count <= values.len(),
        count <= parameters.len(),
        forall|target: nat|
            #![trigger in_hand(scope.slots, target)]
            in_hand(scope.slots, target) >= carried(values, target),
    ensures
        counted(bound(scope, parameters, values, count).slots),
        forall|target: nat|
            #![trigger in_hand(bound(scope, parameters, values, count).slots, target)]
            in_hand(bound(scope, parameters, values, count).slots, target) == in_hand(
                scope.slots,
                target,
            ) - carried_in(values, target, count),
    decreases count,
{
    if count <= 0 {
    } else {
        lemma_bound_in_hand(scope, parameters, values, count - 1);
        lemma_bound(scope, parameters, values, count - 1);
        let before = bound(scope, parameters, values, count - 1);
        let after = before.declare(parameters[count - 1], values[count - 1]);
        assert(scope.holds(values[count - 1]));
        assert forall|target: nat| #![trigger in_hand(after.slots, target)] in_hand(
            after.slots,
            target,
        ) == in_hand(scope.slots, target) - carried_in(values, target, count) by {
            before.lemma_declare_in_hand(parameters[count - 1], values[count - 1], target);
            assert(in_hand(before.slots, target) == in_hand(scope.slots, target) - carried_in(
                values,
                target,
                count - 1,
            ));
        }
        assert forall|target: nat| #![trigger in_hand(after.slots, target)] in_hand(
            after.slots,
            target,
        ) >= 0 by {
            lemma_carried_in_grows(values, target, count, values.len() as int);
            assert(in_hand(scope.slots, target) >= carried(values, target));
        }
    }
}

/// Dropping values that are in hand takes the references among them out of hand, and out of
/// the counts.
pub proof fn lemma_dropped_in_hand(scope: ScopeView, values: Seq<DataView>)
    requires
        scope.wf(),
        counted(scope.slots),
        forall|target: nat|
            #![trigger in_hand(scope.slots, target)]
            in_hand(scope.slots, target) >= carried(values, target),
    ensures
        counted(dropped(scope, values).slots),
        forall|target: nat|
            #![trigger in_hand(dropped(scope, values).slots, target)]
            in_hand(dropped(scope, values).slots, target) == in_hand(scope.slots, target) - carried(
                values,
                target,
            ),
    decreases values.len(),
{
    if values.len() > 0 {
        let last = values.last();
        let rest = values.drop_last();
        let after = scope.release(last);
        scope.lemma_release(last);
        match last {
            DataView::Reference(source) => {
                assert(in_hand(scope.slots, source) >= carried(values, source));
            },
            _ => {},
        }
        assert forall|target: nat| #![trigger in_hand(after.slots, target)] in_hand(
            after.slots,
            target,
        ) == in_hand(scope.slots, target) - refers(last, target) && in_hand(after.slots, target)
            >= carried(rest, target) by {
            scope.lemma_release_in_hand(last, target);
            lemma_carried_in_same(values, rest, target, rest.len() as int);
            assert(in_hand(scope.slots, target) >= carried(values, target));
        }
        assert forall|target: nat| #![trigger in_hand(after.slots, target)] in_hand(
            after.slots,
            target,
        ) >= 0 by {
            assert(in_hand(after.slots, target) >= carried(rest, target));
        }
        lemma_dropped_in_hand(after, rest);
        assert forall|target: nat|
            #![trigger in_hand(dropped(scope, values).slots, target)]
            in_hand(dropped(scope, values).slots, target) == in_hand(scope.slots, target) - carried(
                values,
                target,
            ) by {
            lemma_carried_in_same(values, rest, target, rest.len() as int);
            assert(in_hand(after.slots, target) == in_hand(scope.slots, target) - refers(
                last,
                target,
            ));
            assert(in_hand(dropped(after, rest).slots, target) == in_hand(after.slots, target)
                - carried(rest, target));
        }
    }
}

/// Dropping one value that is in hand takes the reference that it is out of hand.
proof fn lemma_released(scope: ScopeView, data: DataView, base: ScopeView, extra: Option<DataView>)
    requires
        scope.wf(),
        counted(base.slots),
        forall|target: nat|
            #![trigger in_hand(scope.slots, target)]
            in_hand(scope.slots, target) == in_hand(base.slots, target) + refers(data, target)
                + yields(extra, target),
    ensures
        scope.release(data).wf(),
        counted(scope.release(data).slots),
        forall|target: nat|
            #![trigger in_hand(scope.release(data).slots, target)]
            in_hand(scope.release(data).slots, target) == in_hand(base.slots, target) + yields(
                extra,
                target,
            ),
{
    scope.lemma_release(data);
    assert forall|target: nat| #![trigger in_hand(scope.slots, target)] in_hand(
        scope.slots,
        target,
    ) >= 0 by {
        assert(in_hand(base.slots, target) >= 0);
    }
    match data {
        DataView::Reference(source) => {
            assert(in_hand(scope.slots, source) == in_hand(base.slots, source) + refers(
                data,
                source,
            ) + yields(extra, source));
            assert(in_hand(base.slots, source) >= 0);
        },
        _ => {},
    }
    let after = scope.release(data);
    assert forall|target: nat| #![trigger in_hand(after.slots, target)] in_hand(
        after.slots,
        target,
    ) == in_hand(base.slots, target) + yields(extra, target) by {
        scope.lemma_release_in_hand(data, target);
        assert(in_hand(scope.slots, target) == in_hand(base.slots, target) + refers(data, target)
            + yields(extra, target));
    }
    assert forall|target: nat| #![trigger in_hand(after.slots, target)] in_hand(
        after.slots,
        target,
    ) >= 0 by {
        assert(in_hand(base.slots, target) >= 0);
    }
}

/// Evaluation counts every reference.
///
/// In a store where every reference that a slot holds is counted, evaluation leaves it so.
/// Where it succeeds, the borrow counts have changed by what the slots hold more or less
/// than before, and by the reference that was yielded, if one was: no reference is in hand
/// but that one, and those that were in hand before. Where it fails, no reference is in hand
/// but those that were in hand before: every reference that was made on the way and is held
/// by no slot was given back.
pub proof fn lemma_evaluation_keeps_count(node: NodeView, scope: ScopeView, depth: nat)
    requires
        scope.wf(),
        counted(scope.slots),
    ensures
        keeps_count(scope, None, evaluate_spec(node, scope, depth)),
    decreases depth, node, 0int,
{
    match node {
        NodeView::Expression(expression) => {
            lemma_expression_keeps_count(*expression, scope, depth);
        },
        NodeView::Statement(statement) => match *statement {
            StatementView::Variable { name, value } => {
                lemma_expression_keeps_count(*value, scope, depth);
                lemma_expression_is_sound(*value, scope, depth);
                let step = evaluate_expression_spec(*value, scope, depth);
                match step.result {
                    Ok(Some(data)) => {
                        let after = step.scope.declare(name, data);
                        assert forall|target: nat| #![trigger in_hand(after.slots, target)] in_hand(
                            after.slots,
                            target,
                        ) == in_hand(scope.slots, target) by {
                            step.scope.lemma_declare_in_hand(name, data, target);
                            assert(in_hand(step.scope.slots, target) == in_hand(scope.slots, target)
                                + gained(step.result, target));
                        }
                        assert forall|target: nat| #![trigger in_hand(after.slots, target)] in_hand(
                            after.slots,
                            target,
                        ) >= 0 by {
                            assert(in_hand(scope.slots, target) >= 0);
                        }
                    },
                    Ok(None) => {
                        assert forall|target: nat|
                            #![trigger in_hand(step.scope.slots, target)]
                            in_hand(step.scope.slots, target) == in_hand(scope.slots, target) by {
                            assert(in_hand(step.scope.slots, target) == in_hand(scope.slots, target)
                                + gained(step.result, target));
                        }
                    },
                    Err(_) => {},
                }
            },
            StatementView::Function { name, parameters, body } => {
                let opened = scope.open(scope.current, false);
                scope.lemma_open(scope.current, false);
                let function = DataView::Function {
                    parameters,
                    body: *body,
                    definition_scope: scope.frames.len(),
                };
                let after = opened.declare(name, function);
                assert forall|target: nat| #![trigger in_hand(after.slots, target)] in_hand(
                    after.slots,
                    target,
                ) == in_hand(scope.slots, target) by {
                    opened.lemma_declare_in_hand(name, function, target);
                }
                assert forall|target: nat| #![trigger in_hand(after.slots, target)] in_hand(
                    after.slots,
                    target,
                ) >= 0 by {
                    assert(in_hand(scope.slots, target) >= 0);
                }
            },
        },
    }
}

/// Evaluating an expression counts every reference: what
/// [`lemma_evaluation_keeps_count`] says of a node holds of an expression.
pub proof fn lemma_expression_keeps_count(expression: ExpressionView, scope: ScopeView, depth: nat)
    requires
        scope.wf(),
        counted(scope.slots),
    ensures
        keeps_count(scope, None, evaluate_expression_spec(expression, scope, depth)),
    decreases depth, expression, 0int,
{
    match expression {
        ExpressionView::Number(_) => {},
        ExpressionView::Boolean(_) => {},
        ExpressionView::Identifier(name) => {
            let after = scope.resolve(name).0;
            assert forall|target: nat| #![trigger in_hand(after.slots, target)] in_hand(
                after.slots,
                target,
            ) == in_hand(scope.slots, target) + match scope.resolve(name).1 {
                Ok(data) => refers(data, target) as int,
                Err(_) => 0int,
            } by {
                scope.lemma_resolve_in_hand(name, target);
            }
            assert forall|target: nat| #![trigger in_hand(after.slots, target)] in_hand(
                after.slots,
                target,
            ) >= 0 by {
                assert(in_hand(scope.slots, target) >= 0);
            }
        },
        ExpressionView::Reference(name) => {
            let after = scope.borrow(name).0;
            assert forall|target: nat| #![trigger in_hand(after.slots, target)] in_hand(
                after.slots,
                target,
            ) == in_hand(scope.slots, target) + match scope.borrow(name).1 {
                Ok(data) => refers(data, target) as int,
                Err(_) => 0int,
            } by {
                scope.lemma_borrow_in_hand(name, target);
            }
            assert forall|target: nat| #![trigger in_hand(after.slots, target)] in_hand(
                after.slots,
                target,
            ) >= 0 by {
                assert(in_hand(scope.slots, target) >= 0);
            }
        },
        ExpressionView::BinaryExpression { operator, left, right } => {
            lemma_expression_keeps_count(*left, scope, depth);
            lemma_expression_is_sound(*left, scope, depth);
            let first = evaluate_expression_spec(*left, scope, depth);
            match first.result {
                Ok(Some(left_value)) => {
                    lemma_expression_keeps_count(*right, first.scope, depth);
                    lemma_expression_is_sound(*right, first.scope, depth);
                    let second = evaluate_expression_spec(*right, first.scope, depth);
                    assert forall|target: nat|
                        #![trigger in_hand(second.scope.slots, target)]
                        in_hand(second.scope.slots, target) == in_hand(scope.slots, target) + refers(
                            left_value,
                            target,
                        ) + gained(second.result, target) by {
                        assert(in_hand(first.scope.slots, target) == in_hand(scope.slots, target)
                            + gained(first.result, target));
                    }
                    match second.result {
                        Ok(Some(right_value)) => {
                            lemma_released(second.scope, left_value, scope, Some(right_value));
                            let between = second.scope.release(left_value);
                            assert forall|target: nat|
                                #![trigger in_hand(between.slots, target)]
                                in_hand(between.slots, target) == in_hand(scope.slots, target)
                                    + refers(right_value, target) + yields(None, target) by {}
                            lemma_released(between, right_value, scope, None);
                        },
                        _ => {
                            lemma_released(second.scope, left_value, scope, None);
                        },
                    }
                },
                Ok(None) => {
                    assert forall|target: nat|
                        #![trigger in_hand(first.scope.slots, target)]
                        in_hand(first.scope.slots, target) == in_hand(scope.slots, target) by {
                        assert(in_hand(first.scope.slots, target) == in_hand(scope.slots, target)
                            + gained(first.result, target));
                    }
                },
                Err(_) => {},
            }
        },
        ExpressionView::Call { name, arguments } => {
            lemma_call_keeps_count(name, arguments, scope, depth);
            assert(evaluate_expression_spec(expression, scope, depth) == evaluate_call_spec(
                name,
                arguments,
                scope,
                depth,
            ));
        },
        ExpressionView::Block(nodes) => {
            let opened = scope.open(scope.current, true);
            scope.lemma_open(scope.current, true);
            lemma_sequence_keeps_count(nodes, 0, opened, depth, None);
            lemma_sequence_is_sound(nodes, 0, opened, depth, None);
            let inner = evaluate_sequence_spec(nodes, 0, opened, depth, None);
            let after = inner.scope.close(scope.frames.len(), scope.current);
            inner.scope.lemma_close_in_hand(scope.frames.len(), scope.current, 0);
            assert forall|target: nat| #![trigger in_hand(after.slots, target)] in_hand(
                after.slots,
                target,
            ) == in_hand(scope.slots, target) + gained(inner.result, target) by {
                inner.scope.lemma_close_in_hand(scope.frames.len(), scope.current, target);
                assert(in_hand(inner.scope.slots, target) == in_hand(opened.slots, target)
                    - yields(None, target) + gained(inner.result, target));
            }
        },
        ExpressionView::Program(nodes) => {
            lemma_sequence_keeps_count(nodes, 0, scope, depth, None);
        },
    }
}

/// Evaluating the nodes of a block or of a program counts every reference. The value `last`
/// is in hand when the sequence begins, and is dropped on the way where an expression
/// follows or a statement fails.
pub proof fn lemma_sequence_keeps_count(
    nodes: Seq<NodeView>,
    from: int,
    scope: ScopeView,
    depth: nat,
    last: Option<DataView>,
)
    requires
        scope.wf(),
        counted(scope.slots),
        match last {
            Some(data) => scope.holds(data) && match data {
                DataView::Reference(source) => in_hand(scope.slots, source) >= 1,
                _ => true,
            },
            None => true,
        },
    ensures
        keeps_count(scope, last, evaluate_sequence_spec(nodes, from, scope, depth, last)),
    decreases depth, nodes, nodes.len() - from,
{
    if from < 0 || from >= nodes.len() {
        assert forall|target: nat| #![trigger in_hand(scope.slots, target)] in_hand(
            scope.slots,
            target,
        ) == in_hand(scope.slots, target) - yields(last, target) + yields(last, target) by {}
    } else if nodes[from] is Expression {
        let before = released(scope, last);
        match last {
            Some(data) => {
                scope.lemma_release(data);
                assert forall|target: nat| #![trigger in_hand(before.slots, target)] in_hand(
                    before.slots,
                    target,
                ) == in_hand(scope.slots, target) - refers(data, target) by {
                    scope.lemma_release_in_hand(data, target);
                }
                assert forall|target: nat| #![trigger in_hand(before.slots, target)] in_hand(
                    before.slots,
                    target,
                ) >= 0 by {
                    assert(in_hand(scope.slots, target) >= 0);
                }
            },
            None => {},
        }
        lemma_evaluation_keeps_count(nodes[from], before, depth);
        lemma_evaluation_is_sound(nodes[from], before, depth);
        let step = evaluate_spec(nodes[from], before, depth);
        assert forall|target: nat| #![trigger in_hand(step.scope.slots, target)] in_hand(
            step.scope.slots,
            target,
        ) == in_hand(scope.slots, target) - yields(last, target) + gained(step.result, target) by {
            assert(in_hand(step.scope.slots, target) == in_hand(before.slots, target) - yields(
                None,
                target,
            ) + gained(step.result, target));
            assert(in_hand(before.slots, target) == in_hand(scope.slots, target) - yields(
                last,
                target,
            ));
        }
        match step.result {
            Err(_) => {},
            Ok(value) => {
                match value {
                    Some(DataView::Reference(source)) => {
                        assert(in_hand(step.scope.slots, source) == in_hand(before.slots, source)
                            - yields(None, source) + gained(step.result, source));
                        assert(in_hand(before.slots, source) >= 0);
                    },
                    _ => {},
                }
                lemma_sequence_keeps_count(nodes, from + 1, step.scope, depth, value);
                let outcome = evaluate_sequence_spec(nodes, from + 1, step.scope, depth, value);
                assert forall|target: nat|
                    #![trigger in_hand(outcome.scope.slots, target)]
                    in_hand(outcome.scope.slots, target) == in_hand(scope.slots, target) - yields(
                        last,
                        target,
                    ) + gained(outcome.result, target) by {
                    assert(in_hand(outcome.scope.slots, target) == in_hand(
                        step.scope.slots,
                        target,
                    ) - yields(value, target) + gained(outcome.result, target));
                    assert(in_hand(step.scope.slots, target) == in_hand(scope.slots, target)
                        - yields(last, target) + gained(step.result, target));
                }
            },
        }
    } else {
        lemma_evaluation_keeps_count(nodes[from], scope, depth);
        lemma_evaluation_is_sound(nodes[from], scope, depth);
        let step = evaluate_spec(nodes[from], scope, depth);
        assert forall|target: nat| #![trigger in_hand(step.scope.slots, target)] in_hand(
            step.scope.slots,
            target,
        ) == in_hand(scope.slots, target) + gained(step.result, target) by {
            assert(in_hand(step.scope.slots, target) == in_hand(scope.slots, target) - yields(
                None,
                target,
            ) + gained(step.result, target));
        }
        match step.result {
            Err(_) => {
                match last {
                    Some(data) => {
                        let base = scope.release(data);
                        scope.lemma_release(data);
                        assert forall|target: nat| #![trigger in_hand(base.slots, target)] in_hand(
                            base.slots,
                            target,
                        ) == in_hand(scope.slots, target) - refers(data, target) by {
                            scope.lemma_release_in_hand(data, target);
                        }
                        assert forall|target: nat| #![trigger in_hand(base.slots, target)] in_hand(
                            base.slots,
                            target,
                        ) >= 0 by {
                            assert(in_hand(scope.slots, target) >= 0);
                        }
                        assert forall|target: nat|
                            #![trigger in_hand(step.scope.slots, target)]
                            in_hand(step.scope.slots, target) == in_hand(base.slots, target)
                                + refers(data, target) + yields(None, target) by {
                            assert(in_hand(step.scope.slots, target) == in_hand(scope.slots, target)
                                + gained(step.result, target));
                            assert(in_hand(base.slots, target) == in_hand(scope.slots, target)
                                - refers(data, target));
                        }
                        lemma_released(step.scope, data, base, None);
                        let after = step.scope.release(data);
                        assert forall|target: nat| #![trigger in_hand(after.slots, target)] in_hand(
                            after.slots,
                            target,
                        ) == in_hand(scope.slots, target) - yields(last, target) by {
                            assert(in_hand(after.slots, target) == in_hand(base.slots, target)
                                + yields(None, target));
                            assert(in_hand(base.slots, target) == in_hand(scope.slots, target)
                                - refers(data, target));
                        }
                    },
                    None => {},
                }
            },
            Ok(value) => {
                assert(value is None);
                match last {
                    Some(DataView::Reference(source)) => {
                        assert(in_hand(step.scope.slots, source) == in_hand(scope.slots, source)
                            + gained(step.result, source));
                    },
                    _ => {},
                }
                lemma_sequence_keeps_count(nodes, from + 1, step.scope, depth, last);
                let outcome = evaluate_sequence_spec(nodes, from + 1, step.scope, depth, last);
                assert forall|target: nat|
                    #![trigger in_hand(outcome.scope.slots, target)]
                    in_hand(outcome.scope.slots, target) == in_hand(scope.slots, target) - yields(
                        last,
                        target,
                    ) + gained(outcome.result, target) by {
                    assert(in_hand(outcome.scope.slots, target) == in_hand(
                        step.scope.slots,
                        target,
                    ) - yields(last, target) + gained(outcome.result, target));
                    assert(in_hand(step.scope.slots, target) == in_hand(scope.slots, target)
                        + gained(step.result, target));
                }
            },
        }
    }
}

/// The values of the arguments of a call are in hand once they are evaluated, and none of
/// them is where an argument fails.
pub proof fn lemma_arguments_keep_count(
    arguments: Seq<ExpressionView>,
    from: int,
    scope: ScopeView,
    depth: nat,
    values: Seq<DataView>,
)
    requires
        scope.wf(),
        counted(scope.slots),
        all_held(scope, values),
        0 <= from,
        forall|target: nat|
            #![trigger in_hand(scope.slots, target)]
            in_hand(scope.slots, target) >= carried(values, target),
    ensures
        ({
            let evaluated = evaluate_arguments_spec(arguments, from, scope, depth, values);
            &&& counted(evaluated.scope.slots)
            &&& match evaluated.result {
                Ok(all) => {
                    &&& all.len() == values.len() + if from < arguments.len() {
                        arguments.len() - from
                    } else {
                        0
                    }
                    &&& forall|target: nat|
                        #![trigger in_hand(evaluated.scope.slots, target)]
                        in_hand(evaluated.scope.slots, target) == in_hand(scope.slots, target)
                            + carried(all, target) - carried(values, target)
                },
                Err(_) => forall|target: nat|
                    #![trigger in_hand(evaluated.scope.slots, target)]
                    in_hand(evaluated.scope.slots, target) == in_hand(scope.slots, target)
                        - carried(values, target),
            }
        }),
    decreases depth, arguments, arguments.len() - from,
{
    if from >= arguments.len() {
    } else {
        lemma_expression_keeps_count(arguments[from], scope, depth);
        lemma_expression_is_sound(arguments[from], scope, depth);
        let step = evaluate_expression_spec(arguments[from], scope, depth);
        assert forall|target: nat| #![trigger in_hand(step.scope.slots, target)] in_hand(
            step.scope.slots,
            target,
        ) == in_hand(scope.slots, target) + gained(step.result, target) by {
            assert(in_hand(step.scope.slots, target) == in_hand(scope.slots, target) - yields(
                None,
                target,
            ) + gained(step.result, target));
        }
        match step.result {
            Ok(Some(data)) => {
                assert forall|j: int| 0 <= j < values.push(data).len() implies step.scope.holds(
                    #[trigger] values.push(data)[j],
                ) by {
                    if j < values.len() {
                        assert(scope.holds(values[j]));
                    }
                }
                assert forall|target: nat|
                    #![trigger in_hand(step.scope.slots, target)]
                    in_hand(step.scope.slots, target) >= carried(values.push(data), target) by {
                    lemma_carried_push(values, data, target);
                    assert(in_hand(scope.slots, target) >= carried(values, target));
                    assert(in_hand(step.scope.slots, target) == in_hand(scope.slots, target)
                        + gained(step.result, target));
                }
                lemma_arguments_keep_count(arguments, from + 1, step.scope, depth, values.push(data));
                let evaluated = evaluate_arguments_spec(
                    arguments,
                    from + 1,
                    step.scope,
                    depth,
                    values.push(data),
                );
                match evaluated.result {
                    Ok(all) => {
                        assert forall|target: nat|
                            #![trigger in_hand(evaluated.scope.slots, target)]
                            in_hand(evaluated.scope.slots, target) == in_hand(scope.slots, target)
                                + carried(all, target) - carried(values, target) by {
                            lemma_carried_push(values, data, target);
                            assert(in_hand(step.scope.slots, target) == in_hand(scope.slots, target)
                                + gained(step.result, target));
                        }
                    },
                    Err(_) => {
                        assert forall|target: nat|
                            #![trigger in_hand(evaluated.scope.slots, target)]
                            in_hand(evaluated.scope.slots, target) == in_hand(scope.slots, target)
                                - carried(values, target) by {
                            lemma_carried_push(values, data, target);
                            assert(in_hand(step.scope.slots, target) == in_hand(scope.slots, target)
                                + gained(step.result, target));
                        }
                    },
                }
            },
            _ => {
                assert forall|target: nat|
                    #![trigger in_hand(step.scope.slots, target)]
                    in_hand(step.scope.slots, target) >= carried(values, target) by {
                    assert(in_hand(scope.slots, target) >= carried(values, target));
                    assert(in_hand(step.scope.slots, target) == in_hand(scope.slots, target)
                        + gained(step.result, target));
                }
                lemma_dropped_in_hand(step.scope, values);
                let after = dropped(step.scope, values);
                assert forall|target: nat| #![trigger in_hand(after.slots, target)] in_hand(
                    after.slots,
                    target,
                ) == in_hand(scope.slots, target) - carried(values, target) by {
                    assert(in_hand(after.slots, target) == in_hand(step.scope.slots, target)
                        - carried(values, target));
                    assert(in_hand(step.scope.slots, target) == in_hand(scope.slots, target)
                        + gained(step.result, target));
                }
            },
        }
    }
}

/// Evaluating a call counts every reference: the arguments are in hand until they are bound,
/// and the scope of the call gives back what it holds when it ends.
pub proof fn lemma_call_keeps_count(
    name: Seq<char>,
    arguments: Seq<ExpressionView>,
    scope: ScopeView,
    depth: nat,
)
    requires
        scope.wf(),
        counted(scope.slots),
    ensures
        keeps_count(scope, None, evaluate_call_spec(name, arguments, scope, depth)),
    decreases depth, arguments, arguments.len() + 1,
{
    scope.lemma_resolve(name);
    let (read, resolved) = scope.resolve(name);
    assert forall|target: nat| #![trigger in_hand(read.slots, target)] in_hand(read.slots, target)
        == in_hand(scope.slots, target) + match resolved {
        Ok(data) => refers(data, target) as int,
        Err(_) => 0int,
    } by {
        scope.lemma_resolve_in_hand(name, target);
    }
    assert forall|target: nat| #![trigger in_hand(read.slots, target)] in_hand(read.slots, target)
        >= 0 by {
        assert(in_hand(scope.slots, target) >= 0);
    }
    match resolved {
        Ok(DataView::Function { parameters, body, definition_scope }) => {
            if arguments.len() == parameters.len() {
                assert forall|target: nat|
                    #![trigger in_hand(read.slots, target)]
                    in_hand(read.slots, target) >= carried(Seq::<DataView>::empty(), target) by {}
                lemma_arguments_keep_count(arguments, 0, read, depth, Seq::empty());
                lemma_arguments_are_sound(arguments, 0, read, depth, Seq::empty());
                let evaluated = evaluate_arguments_spec(arguments, 0, read, depth, Seq::empty());
                match evaluated.result {
                    Ok(values) => {
                        assert forall|target: nat|
                            #![trigger in_hand(evaluated.scope.slots, target)]
                            in_hand(evaluated.scope.slots, target) == in_hand(scope.slots, target)
                                + carried(values, target) by {
                            assert(in_hand(evaluated.scope.slots, target) == in_hand(
                                read.slots,
                                target,
                            ) + carried(values, target) - carried(
                                Seq::<DataView>::empty(),
                                target,
                            ));
                        }
                        if depth > 0 {
                            let frame = evaluated.scope.frames.len();
                            let opened = evaluated.scope.open(definition_scope, true);
                            evaluated.scope.lemma_open(definition_scope, true);
                            assert(all_held(opened, values)) by {
                                assert forall|j: int| 0 <= j < values.len() implies opened.holds(
                                    #[trigger] values[j],
                                ) by {
                                    assert(evaluated.scope.holds(values[j]));
                                }
                            }
                            assert forall|target: nat|
                                #![trigger in_hand(opened.slots, target)]
                                in_hand(opened.slots, target) >= carried(values, target) by {
                                assert(in_hand(evaluated.scope.slots, target) == in_hand(
                                    scope.slots,
                                    target,
                                ) + carried(values, target));
                                assert(in_hand(scope.slots, target) >= 0);
                            }
                            lemma_bound(opened, parameters, values, parameters.len() as int);
                            lemma_bound_in_hand(opened, parameters, values, parameters.len() as int);
                            let entered = bound(opened, parameters, values, parameters.len() as int);
                            lemma_expression_keeps_count(body, entered, (depth - 1) as nat);
                            lemma_expression_is_sound(body, entered, (depth - 1) as nat);
                            let inner = evaluate_expression_spec(body, entered, (depth - 1) as nat);
                            let after = inner.scope.close(frame, scope.current);
                            inner.scope.lemma_close_in_hand(frame, scope.current, 0);
                            assert forall|target: nat|
                                #![trigger in_hand(after.slots, target)]
                                in_hand(after.slots, target) == in_hand(scope.slots, target)
                                    + gained(inner.result, target) by {
                                inner.scope.lemma_close_in_hand(frame, scope.current, target);
                                assert(in_hand(inner.scope.slots, target) == in_hand(
                                    entered.slots,
                                    target,
                                ) - yields(None, target) + gained(inner.result, target));
                                assert(in_hand(entered.slots, target) == in_hand(
                                    opened.slots,
                                    target,
                                ) - carried_in(values, target, parameters.len() as int));
                                assert(in_hand(evaluated.scope.slots, target) == in_hand(
                                    scope.slots,
                                    target,
                                ) + carried(values, target));
                            }
                        } else {
                            assert forall|target: nat|
                                #![trigger in_hand(evaluated.scope.slots, target)]
                                in_hand(evaluated.scope.slots, target) >= carried(values, target) by {
                                assert(in_hand(evaluated.scope.slots, target) == in_hand(
                                    scope.slots,
                                    target,
                                ) + carried(values, target));
                                assert(in_hand(scope.slots, target) >= 0);
                            }
                            lemma_dropped_in_hand(evaluated.scope, values);
                            let after = dropped(evaluated.scope, values);
                            assert forall|target: nat|
                                #![trigger in_hand(after.slots, target)]
                                in_hand(after.slots, target) == in_hand(scope.slots, target) by {
                                assert(in_hand(after.slots, target) == in_hand(
                                    evaluated.scope.slots,
                                    target,
                                ) - carried(values, target));
                                assert(in_hand(evaluated.scope.slots, target) == in_hand(
                                    scope.slots,
                                    target,
                                ) + carried(values, target));
                            }
                        }
                    },
                    Err(_) => {
                        assert forall|target: nat|
                            #![trigger in_hand(evaluated.scope.slots, target)]
                            in_hand(evaluated.scope.slots, target) == in_hand(scope.slots, target) by {
                            assert(in_hand(evaluated.scope.slots, target) == in_hand(
                                read.slots,
                                target,
                            ) - carried(Seq::<DataView>::empty(), target));
                        }
                    },
                }
            }
        },
        Ok(data) => {
            assert forall|target: nat| #![trigger in_hand(read.slots, target)] in_hand(
                read.slots,
                target,
            ) == in_hand(scope.slots, target) + refers(data, target) + yields(None, target) by {}
            lemma_released(read, data, scope, None);
        },
        Err(_) => {},
    }
}

/// After a program was run in a fresh store, the borrow count of each slot is the number of
/// references to it: those that the slots hold, and the one that the program yielded, if it
/// yielded one to this slot. That is so where the run failed too: nothing is yielded then.
pub proof fn lemma_counts_are_exact(program: NodeView, depth: nat, target: nat)
    requires
        target < evaluate_spec(program, ScopeView::root(), depth).scope.slots.len(),
    ensures
        ({
            let outcome = evaluate_spec(program, ScopeView::root(), depth);
            outcome.scope.slots[target as int].borrow_count == held(outcome.scope.slots, target)
                + gained(outcome.result, target)
        }),
{
    let root = ScopeView::root();
    assert(root.wf());
    assert(counted(root.slots));
    lemma_evaluation_keeps_count(program, root, depth);
    let outcome = evaluate_spec(program, root, depth);
    assert(in_hand(outcome.scope.slots, target) == in_hand(root.slots, target) - yields(
        None,
        target,
    ) + gained(outcome.result, target));
}

} // verus!
