//! Runtime values, and the slot that holds a binding's value with its borrow state.

use vstd::prelude::*;
use std::rc::Rc;
use crate::parser::expression::{Expression, ExpressionView};
use crate::parser::printer::describe_expression;
use crate::parser::statement::texts;
use crate::text::{decimal, decimal_text, integer, integer_text, quoted_list, quoted_list_text};

verus! {

/// The handle of a slot: its index in the slot store of the scope that made it.
pub type Slot = usize;

/// A slot: the value of one binding, and how it is borrowed.
#[derive(Clone, Debug, PartialEq, Eq)]
pub struct BorrowableData {
    pub value: Data,
    /// The number of references to this slot that were handed out and not yet given back.
    pub borrow_count: usize,
    /// Kept for exclusive borrows, which the language has no syntax for: never set.
    pub is_mutably_borrowed: bool,
}

/// A reference to a slot. While it lives, the owned value in the slot cannot be moved.
#[derive(Clone, Debug, PartialEq, Eq)]
pub struct Reference {
    pub source: Slot,
}

/// A runtime value. Numbers and booleans are copied when a binding is read; functions and
/// references are moved out of it.
#[derive(Clone, Debug, PartialEq, Eq)]
pub enum Data {
    Number(i32),
    Boolean(bool),
    Function { parameters: Rc<Vec<String>>, body: Rc<Expression>, definition_scope: usize },
    Reference(Rc<Reference>),
    /// What is left in a slot whose value was moved out.
    Moved,
}

/// The mathematical value of a [`Data`].
pub enum DataView {
    Number(i32),
    Boolean(bool),
    Function { parameters: Seq<Seq<char>>, body: ExpressionView, definition_scope: nat },
    Reference(nat),
    Moved,
}

/// The mathematical value of a [`BorrowableData`].
pub struct SlotView {
    pub value: DataView,
    pub borrow_count: nat,
    pub is_mutably_borrowed: bool,
}

impl DataView {
    /// Whether reading a binding with this value copies it.
    pub open spec fn is_copyable(self) -> bool {
        self is Number || self is Boolean
    }

    /// The value as text, for messages: the name of its kind and what it holds.
    pub open spec fn describe(self) -> Seq<char> {
        match self {
            DataView::Number(n) => "Number("@ + integer(n as int) + ")"@,
            DataView::Boolean(b) => if b {
                "Boolean(true)"@
            } else {
                "Boolean(false)"@
            },
            DataView::Function { parameters, body, definition_scope } => {
                "Function { parameters: ["@ + quoted_list(parameters, parameters.len() as int)
                    + "], body: "@ + describe_expression(body) + ", definition_scope: "@
                    + decimal(definition_scope) + " }"@
            },
            DataView::Reference(source) => "Reference(Reference { source: "@ + decimal(source)
                + " })"@,
            DataView::Moved => "Moved"@,
        }
    }

    /// Whether the handles in the value belong to a store of `slots` slots and `frames`
    /// scopes.
    pub open spec fn fits(self, slots: nat, frames: nat) -> bool {
        match self {
            DataView::Reference(source) => source < slots,
            DataView::Function { definition_scope, .. } => definition_scope < frames,
            _ => true,
        }
    }
}

impl Data {
    /// The value as a mathematical value.
    pub open spec fn view(&self) -> DataView {
        match self {
            Data::Number(n) => DataView::Number(*n),
            Data::Boolean(b) => DataView::Boolean(*b),
            Data::Function { parameters, body, definition_scope } => DataView::Function {
                parameters: texts(parameters@),
                body: body@,
                definition_scope: *definition_scope as nat,
            },
            Data::Reference(reference) => DataView::Reference(reference.source as nat),
            Data::Moved => DataView::Moved,
        }
    }

    /// The value as text, for messages.
    pub fn describe(&self) -> (text: String)
        ensures
            text@ == self@.describe(),
    {
        match self {
            Data::Number(n) => {
                let number = integer_text(*n);
                String::from_str("Number(").concat(number.as_str()).concat(")")
            },
            Data::Boolean(b) => if *b {
                String::from_str("Boolean(true)")
            } else {
                String::from_str("Boolean(false)")
            },
            Data::Function { parameters, body, definition_scope } => {
                let list = quoted_list_text(parameters);
                let body = body.describe();
                let scope = decimal_text(*definition_scope);
                String::from_str("Function { parameters: [").concat(list.as_str()).concat(
                    "], body: ",
                ).concat(body.as_str()).concat(", definition_scope: ").concat(
                    scope.as_str(),
                ).concat(" }")
            },
            Data::Reference(reference) => {
                let source = decimal_text(reference.source);
                String::from_str("Reference(Reference { source: ").concat(
                    source.as_str(),
                ).concat(" })")
            },
            Data::Moved => String::from_str("Moved"),
        }
    }
}

impl BorrowableData {
    /// The slot as a mathematical value.
    pub open spec fn view(&self) -> SlotView {
        SlotView {
            value: self.value@,
            borrow_count: self.borrow_count as nat,
            is_mutably_borrowed: self.is_mutably_borrowed,
        }
    }
}

/// Makes a second handle to a shared value.
///
/// Calls `Rc::clone`; the contract says that the new handle holds the value that `handle`
/// holds.
#[verifier::external_body]
pub(crate) fn share<T>(handle: &Rc<T>) -> (copy: Rc<T>)
    ensures
        copy == *handle,
{
    Rc::clone(handle)
}

} // verus!
