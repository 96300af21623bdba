use std::rc::Rc;

use mova::error::MovaError;
use mova::interpreter::data::Reference;
use mova::interpreter::scope::DEFAULT_CALL_DEPTH;
use mova::interpreter::{Data, Scope};
use mova::parser::Expression;

fn runtime(message: &str) -> MovaError {
    MovaError::Runtime(message.to_string())
}

fn a_function(definition_scope: usize) -> Data {
    Data::Function {
        parameters: Rc::new(vec![]),
        body: Rc::new(Expression::Number(1)),
        definition_scope,
    }
}

#[test]
fn an_unbound_name_does_not_resolve() {
    let mut scope = Scope::new(None);
    assert_eq!(scope.resolve("x"), Err(runtime("Unable to resolve x")));
    assert_eq!(scope.borrow("x"), Err(runtime("Unable to resolve x")));
    assert_eq!(scope.find_slot("x"), Err(runtime("Unable to resolve x")));
}

#[test]
fn a_number_is_read_as_often_as_wanted() {
    let mut scope = Scope::new(None);
    scope.declare("x", Data::Number(10));
    scope.declare("b", Data::Boolean(true));
    for _ in 0..100 {
        assert_eq!(scope.resolve("x"), Ok(Data::Number(10)));
        assert_eq!(scope.resolve("b"), Ok(Data::Boolean(true)));
    }
}

#[test]
fn an_owned_value_is_read_once() {
    let mut scope = Scope::new(None);
    scope.declare("f", a_function(0));
    assert_eq!(scope.resolve("f"), Ok(a_function(0)));
    assert_eq!(scope.resolve("f"), Err(runtime("Unable to use 'f' because it is moved")));
    assert_eq!(scope.borrow("f"), Err(runtime("Unable to borrow 'f' because it is moved")));
    let slot = scope.find_slot("f").unwrap();
    assert_eq!(scope.slot(slot).value, Data::Moved);
}

#[test]
fn a_rebound_name_is_read_again() {
    let mut scope = Scope::new(None);
    scope.declare("f", a_function(0));
    assert!(scope.resolve("f").is_ok());
    assert!(scope.resolve("f").is_err());
    scope.declare("f", a_function(0));
    assert_eq!(scope.resolve("f"), Ok(a_function(0)));
}

#[test]
fn a_borrow_counts_and_forbids_the_move() {
    let mut scope = Scope::new(None);
    scope.declare("f", a_function(0));
    let slot = scope.find_slot("f").unwrap();
    assert_eq!(scope.slot(slot).borrow_count, 0);
    let first = scope.borrow("f").unwrap();
    let second = scope.borrow("f").unwrap();
    assert_eq!(first, Data::Reference(Rc::new(Reference { source: slot })));
    assert_eq!(scope.slot(slot).borrow_count, 2);
    assert!(!scope.slot(slot).is_mutably_borrowed);
    assert_eq!(scope.resolve("f"), Err(runtime("Unable to move 'f' because it is borrowed")));
    scope.release(first);
    assert_eq!(scope.slot(slot).borrow_count, 1);
    assert_eq!(scope.resolve("f"), Err(runtime("Unable to move 'f' because it is borrowed")));
    scope.release(second);
    assert_eq!(scope.slot(slot).borrow_count, 0);
    assert_eq!(scope.resolve("f"), Ok(a_function(0)));
}

#[test]
fn a_borrowed_number_is_still_copied() {
    let mut scope = Scope::new(None);
    scope.declare("x", Data::Number(10));
    let reference = scope.borrow("x").unwrap();
    assert_eq!(scope.resolve("x"), Ok(Data::Number(10)));
    scope.release(reference);
}

#[test]
fn a_count_does_not_go_below_zero() {
    let mut scope = Scope::new(None);
    scope.declare("x", Data::Number(10));
    let slot = scope.find_slot("x").unwrap();
    scope.release(Data::Reference(Rc::new(Reference { source: slot })));
    assert_eq!(scope.slot(slot).borrow_count, 0);
    scope.release(Data::Number(1));
    assert_eq!(scope.slot(slot).borrow_count, 0);
}

#[test]
fn a_reference_reads_the_value_of_its_slot() {
    let mut scope = Scope::new(None);
    scope.declare("x", Data::Number(10));
    scope.declare("f", a_function(0));
    let to_x = scope.borrow("x").unwrap();
    let to_f = scope.borrow("f").unwrap();
    match (&to_x, &to_f) {
        (Data::Reference(x), Data::Reference(f)) => {
            assert_eq!(x.value(&scope), Data::Number(10));
            assert_eq!(f.value(&scope), a_function(0));
        }
        _ => panic!("a borrow yields a reference"),
    }
}

#[test]
fn rebinding_gives_back_the_reference_that_the_old_slot_held() {
    let mut scope = Scope::new(None);
    scope.declare("f", a_function(0));
    let reference = scope.borrow("f").unwrap();
    scope.declare("r", reference);
    assert_eq!(scope.resolve("f"), Err(runtime("Unable to move 'f' because it is borrowed")));
    scope.declare("r", Data::Number(1));
    assert_eq!(scope.resolve("f"), Ok(a_function(0)));
}

#[test]
fn lookup_walks_up_and_declaration_does_not() {
    let mut root = Scope::new(None);
    root.declare("x", Data::Number(1));
    root.declare("y", Data::Number(2));
    let outer = root.find_slot("x").unwrap();
    let mut child = Scope::new(Some(root));
    assert_eq!(child.current(), 1);
    assert_eq!(child.resolve("x"), Ok(Data::Number(1)));
    child.declare("x", Data::Number(5));
    assert_eq!(child.resolve("x"), Ok(Data::Number(5)));
    assert_eq!(child.resolve("y"), Ok(Data::Number(2)));
    assert_ne!(child.find_slot("x").unwrap(), outer);
    assert_eq!(child.slot(outer).value, Data::Number(1));
}

#[test]
fn a_fresh_scope_allows_the_default_call_depth() {
    let scope = Scope::new(None);
    assert_eq!(scope.remaining_depth(), DEFAULT_CALL_DEPTH);
    assert_eq!(scope.current(), 0);
    let limited = scope.with_call_depth(3);
    assert_eq!(limited.remaining_depth(), 3);
}

#[test]
fn leaving_a_scope_ends_its_bindings_and_gives_its_borrows_back() {
    let mut root = Scope::new(None);
    root.declare("f", a_function(0));
    let f = root.find_slot("f").unwrap();
    let mut scope = Scope::new(Some(root));
    let reference = scope.borrow("f").unwrap();
    scope.declare("r", reference);
    scope.declare("x", Data::Number(1));
    assert_eq!(scope.current(), 1);
    assert_eq!(scope.slot(f).borrow_count, 1);
    assert!(scope.leave());
    assert_eq!(scope.current(), 0);
    assert_eq!(scope.slot(f).borrow_count, 0);
    assert_eq!(scope.resolve("x"), Err(runtime("Unable to resolve x")));
    assert_eq!(scope.resolve("r"), Err(runtime("Unable to resolve r")));
    assert_eq!(scope.resolve("f"), Ok(a_function(0)));
}

#[test]
fn the_global_scope_is_not_left() {
    let mut scope = Scope::new(None);
    scope.declare("x", Data::Number(1));
    assert!(!scope.leave());
    assert_eq!(scope.current(), 0);
    assert_eq!(scope.resolve("x"), Ok(Data::Number(1)));
}

#[test]
fn a_name_is_bound_once_in_a_scope() {
    let mut scope = Scope::new(None);
    scope.declare("x", Data::Number(1));
    let first = scope.find_slot("x").unwrap();
    scope.declare("y", Data::Number(2));
    scope.declare("x", Data::Number(3));
    let second = scope.find_slot("x").unwrap();
    assert_ne!(first, second);
    assert_eq!(scope.resolve("x"), Ok(Data::Number(3)));
    assert_eq!(scope.resolve("y"), Ok(Data::Number(2)));
    assert_eq!(scope.slot(first).value, Data::Number(1));
}
