use std::rc::Rc;

use mova::error::MovaError;
use mova::interpreter::{evaluate, Data, Scope};
use mova::lexer::tokenize;
use mova::parser::{parse, Expression, Node, Statement};
use mova::runner::run;

fn runtime(message: &str) -> Result<Option<Data>, MovaError> {
    Err(MovaError::Runtime(message.to_string()))
}

fn number(n: i32) -> Result<Option<Data>, MovaError> {
    Ok(Some(Data::Number(n)))
}

fn program(source: &str) -> Node {
    parse(tokenize(source).unwrap()).unwrap()
}

fn is_function(result: &Result<Option<Data>, MovaError>) -> bool {
    matches!(result, Ok(Some(Data::Function { .. })))
}

#[test]
fn literals_evaluate_to_themselves() {
    assert_eq!(run("42"), number(42));
    assert_eq!(run("true"), Ok(Some(Data::Boolean(true))));
    assert_eq!(run("false"), Ok(Some(Data::Boolean(false))));
}

#[test]
fn arithmetic_on_numbers() {
    assert_eq!(run("6 - 10"), number(-4));
    assert_eq!(run("6 * 7"), number(42));
    assert_eq!(run("1 - 2 - 3"), number(-4));
    assert_eq!(run("2 + 3 * 4 - 10 / 5"), number(12));
}

#[test]
fn arithmetic_wraps_around() {
    assert_eq!(run("2147483647 + 1"), number(-2147483648));
    assert_eq!(run("0 - 2147483647 - 2"), number(2147483647));
    assert_eq!(run("65536 * 65536"), number(0));
    assert_eq!(run("let m = 0 - 2147483647 - 1  let n = 0 - 1  m / n"), number(-2147483648));
}

#[test]
fn a_copied_number_is_not_moved() {
    assert_eq!(run("let x = 10  let y = x  x"), number(10));
    assert_eq!(run("let x = 10  x + x + x"), number(30));
}

#[test]
fn an_owned_value_that_was_moved_cannot_be_read() {
    assert_eq!(
        run("fn f() = 1  let g = f  f"),
        runtime("Unable to use 'f' because it is moved")
    );
    assert_eq!(
        run("fn f() = 1  let g = f  f()"),
        runtime("Unable to use 'f' because it is moved")
    );
    assert_eq!(run("fn f() = 1  let g = f  g()"), number(1));
}

#[test]
fn a_borrowed_number_is_still_read() {
    assert_eq!(run("let x = 10  let r = x&  x + 1"), number(11));
}

#[test]
fn an_owned_value_that_is_borrowed_cannot_be_moved() {
    assert_eq!(
        run("fn f() = 1  let r = f&  f()"),
        runtime("Unable to move 'f' because it is borrowed")
    );
    assert_eq!(
        run("fn f() = 1  let r = f&  let g = f"),
        runtime("Unable to move 'f' because it is borrowed")
    );
}

#[test]
fn a_borrow_is_given_back_when_its_scope_ends() {
    assert_eq!(run("fn f() = 1  { let r = f& }  f()"), number(1));
    assert_eq!(run("fn f() = 1  fn g(r) = 2  g(f&)  f()"), number(1));
    assert_eq!(run("fn f() = 1  let r = f&  let r = 0  f()"), number(1));
}

#[test]
fn a_value_that_is_dropped_gives_its_borrow_back() {
    assert_eq!(run("fn f() = 1  { f&  f() }"), number(1));
    assert_eq!(
        run("fn f() = 1  { f&  let g = f }"),
        runtime("Unable to move 'f' because it is borrowed")
    );
}

#[test]
fn a_function_is_called_once() {
    assert_eq!(run("fn f() = 1  f()  f()"), runtime("Unable to use 'f' because it is moved"));
    assert_eq!(run("fn f() = 1  f()  fn f() = 2  f()"), number(2));
}

#[test]
fn a_call_checks_what_it_calls() {
    assert_eq!(run("let x = 1  x()"), runtime("'x' is not callable"));
    assert_eq!(run("f()"), runtime("Unable to resolve f"));
    assert_eq!(run("fn f(a, b) = a  f(1)"), runtime("Expected 2 arguments but received 1"));
    assert_eq!(run("fn f() = 1  f(1, 2, 3)"), runtime("Expected 0 arguments but received 3"));
}

#[test]
fn arguments_are_evaluated_in_source_order() {
    assert_eq!(run("fn f(a, b) = a  fn g() = 1  f(g(), g())"), runtime("Unable to use 'g' because it is moved"));
    assert_eq!(run("fn f(a, b) = a - b  f(10, 3)"), number(7));
}

#[test]
fn the_left_operand_is_evaluated_first() {
    assert_eq!(run("fn g() = 1  g() + h"), runtime("Unable to resolve h"));
    assert_eq!(run("h + 1 / 0"), runtime("Unable to resolve h"));
    assert_eq!(run("1 / 0 + h"), runtime("Division by zero"));
}

#[test]
fn operands_must_be_numbers() {
    assert_eq!(
        run("1 + true"),
        runtime("Unexpected operator '+' for operands 'Number(1)' and 'Boolean(true)'")
    );
    assert_eq!(
        run("fn f() = 1  let x = 2  f& * x"),
        runtime("Unexpected operator '*' for operands 'Reference(Reference { source: 0 })' and 'Number(2)'")
    );
    assert_eq!(
        run("fn f() = 1  0 / f"),
        runtime("Unexpected operator '/' for operands 'Number(0)' and 'Function { parameters: [], body: Number(1), definition_scope: 1 }'")
    );
}

#[test]
fn an_unknown_operator_is_a_runtime_error() {
    let node = Node::Expression(Rc::new(Expression::BinaryExpression {
        operator: Rc::new("%".to_string()),
        left: Rc::new(Expression::Number(1)),
        right: Rc::new(Expression::Number(2)),
    }));
    let mut scope = Scope::new(None);
    assert_eq!(
        evaluate(&node, &mut scope),
        runtime("Unexpected operator '%' for operands 'Number(1)' and 'Number(2)'")
    );
}

#[test]
fn a_statement_is_not_a_value() {
    let unit = Rc::new(Expression::Block(Rc::new(vec![])));
    let one = Rc::new(Expression::Number(1));
    let plus = Rc::new("+".to_string());
    let mut scope = Scope::new(None);
    let left = Node::Expression(Rc::new(Expression::BinaryExpression {
        operator: Rc::clone(&plus),
        left: Rc::clone(&unit),
        right: Rc::clone(&one),
    }));
    assert_eq!(
        evaluate(&left, &mut scope),
        runtime("Expected expression, but received statement as left operand")
    );
    let right = Node::Expression(Rc::new(Expression::BinaryExpression {
        operator: Rc::clone(&plus),
        left: Rc::clone(&one),
        right: Rc::clone(&unit),
    }));
    assert_eq!(
        evaluate(&right, &mut scope),
        runtime("Expected expression, but received statement as right operand")
    );
    assert_eq!(
        run("let x = {}"),
        runtime("Expected expression, but received statement as value")
    );
    assert_eq!(
        run("fn f(a) = a  f({})"),
        runtime("Expected expression, but received statement as argument")
    );
}

#[test]
fn a_statement_yields_nothing() {
    let mut scope = Scope::new(None);
    let declaration = Node::Statement(Rc::new(Statement::Variable {
        name: Rc::new("x".to_string()),
        value: Rc::new(Expression::Number(3)),
    }));
    assert_eq!(evaluate(&declaration, &mut scope), Ok(None));
    assert_eq!(scope.resolve("x"), Ok(Data::Number(3)));
}

#[test]
fn a_block_yields_its_last_expression() {
    assert_eq!(run("{ 1  2  3 }"), number(3));
    assert_eq!(run("{ 1  let x = 2 }"), number(1));
    assert_eq!(run("let y = { let x = 2  x * x }  y + 1"), number(5));
}

#[test]
fn the_bindings_of_a_block_end_with_it() {
    assert_eq!(run("{ let x = 1 }  x"), runtime("Unable to resolve x"));
    assert_eq!(run("let x = 1  { let x = 2 }  x"), number(1));
    assert_eq!(run("let x = 1  { let y = x + 1  y }"), number(2));
}

#[test]
fn the_parameters_of_a_call_end_with_it() {
    assert_eq!(run("fn f(n) = n  f(1)  n"), runtime("Unable to resolve n"));
}

#[test]
fn a_function_sees_the_scope_it_was_defined_in() {
    assert_eq!(run("let a = 1  fn f() = a  { let a = 2  f() }"), number(1));
    assert_eq!(run("fn f() = a  { let a = 2  f() }"), runtime("Unable to resolve a"));
    assert_eq!(run("let a = 1  fn f(a) = a + 1  f(41)"), number(42));
}

#[test]
fn a_function_value_is_a_value() {
    assert!(is_function(&run("fn f() = 1  f")));
    assert!(matches!(run("let x = 1  x&"), Ok(Some(Data::Reference(_)))));
}

#[test]
fn functions_nest() {
    assert_eq!(run("fn f(n) = { fn g(m) = m * 2  g(n) + 1 }  f(20)"), number(41));
    assert_eq!(run("fn g(m) = m * 2  fn f(n) = g(n) + 1  f(20)"), number(41));
}

#[test]
fn calls_nest_no_deeper_than_the_scope_allows() {
    let source = "fn g(m) = m * 2  fn f(n) = g(n) + 1  f(20)";
    let mut deep = Scope::new(None).with_call_depth(2);
    assert_eq!(evaluate(&program(source), &mut deep), number(41));
    assert_eq!(deep.remaining_depth(), 2);
    let mut shallow = Scope::new(None).with_call_depth(1);
    assert_eq!(evaluate(&program(source), &mut shallow), runtime("Call depth limit exceeded"));
    assert_eq!(shallow.remaining_depth(), 1);
    let mut none = Scope::new(None).with_call_depth(0);
    assert_eq!(evaluate(&program("fn f() = 1  f()"), &mut none), runtime("Call depth limit exceeded"));
}

#[test]
fn a_program_is_evaluated_in_the_scope_it_is_given() {
    let mut scope = Scope::new(None);
    assert_eq!(evaluate(&program("let x = 2"), &mut scope), Ok(None));
    assert_eq!(evaluate(&program("let y = x * 3"), &mut scope), Ok(None));
    assert_eq!(evaluate(&program("x + y"), &mut scope), number(8));
    assert_eq!(scope.current(), 0);
}

#[test]
fn evaluation_of_a_plain_program_repeats() {
    let tree = program("let a = 2  let b = 3  let d = { let c = a * b  c + 1 }  d + a / b");
    let mut first = Scope::new(None);
    let mut second = Scope::new(None).with_call_depth(0);
    assert_eq!(evaluate(&tree, &mut first), number(7));
    assert_eq!(evaluate(&tree, &mut second), number(7));
    let a = first.find_slot("a").unwrap();
    assert_eq!(first.slot(a).value, Data::Number(2));
    assert_eq!(first.slot(a).borrow_count, 0);
    assert_eq!(evaluate(&tree, &mut first), number(7));
}

#[test]
fn a_lexer_error_and_a_parser_error_end_the_run() {
    assert_eq!(
        run("let x = 1 ?"),
        Err(MovaError::Lexer {
            message: "Unexpected character: '?'".to_string(),
            position: mova::error::Position { line: 1, character: 10 },
        })
    );
    assert_eq!(run("let = 1"), Err(MovaError::Parser("Expected identifier but got: Assignment".to_string())));
}

#[test]
fn errors_report_themselves() {
    assert_eq!(run("1 / 0").unwrap_err().report(), "Runtime error: Division by zero");
    assert_eq!(run("let").unwrap_err().report(), "Parser error: Expected identifier after `let` keyword");
    assert_eq!(
        run("\n\n  @").unwrap_err().report(),
        "Lexer error at 3:4: Unexpected character: '@'"
    );
}

#[test]
fn a_borrow_count_is_the_number_of_references() {
    let mut scope = Scope::new(None);
    let source = "fn f() = 1  let a = f&  let b = f&  { let c = f&  let d = c }  f&";
    let result = evaluate(&program(source), &mut scope);
    let f = scope.find_slot("f").unwrap();
    assert_eq!(result, Ok(Some(Data::Reference(Rc::new(mova::interpreter::data::Reference { source: f })))));
    assert_eq!(scope.slot(f).borrow_count, 3);
    scope.release(result.unwrap().unwrap());
    assert_eq!(scope.slot(f).borrow_count, 2);
    assert_eq!(evaluate(&program("let a = 0"), &mut scope), Ok(None));
    assert_eq!(scope.slot(f).borrow_count, 1);
    assert_eq!(evaluate(&program("let b = b"), &mut scope), Ok(None));
    assert_eq!(scope.slot(f).borrow_count, 1);
    assert_eq!(evaluate(&program("let b = 0  f()"), &mut scope), Ok(Some(Data::Number(1))));
}

#[test]
fn a_reference_moves_with_its_count() {
    let mut scope = Scope::new(None);
    assert_eq!(
        evaluate(&program("fn f() = 1  fn one(r) = r  fn two(r) = r  let r = two(one(f&))"), &mut scope),
        Ok(None)
    );
    let f = scope.find_slot("f").unwrap();
    assert_eq!(scope.slot(f).borrow_count, 1);
    assert_eq!(scope.resolve("f"), Err(MovaError::Runtime("Unable to move 'f' because it is borrowed".to_string())));
}

#[test]
fn no_program_calls_deeper_than_it_defines_functions() {
    let source = "fn a() = 1  fn b() = a() + 1  fn c() = b() + 1  fn d() = c() + 1  d()";
    let mut enough = Scope::new(None).with_call_depth(4);
    assert_eq!(evaluate(&program(source), &mut enough), number(4));
    let mut plenty = Scope::new(None);
    assert_eq!(evaluate(&program(source), &mut plenty), number(4));
    let mut short = Scope::new(None).with_call_depth(3);
    assert_eq!(evaluate(&program(source), &mut short), runtime("Call depth limit exceeded"));
}

#[test]
fn a_function_cannot_call_itself() {
    assert_eq!(run("fn f(n) = f(n)  f(1)"), runtime("Unable to use 'f' because it is moved"));
}

#[test]
fn a_reference_may_leave_its_block() {
    let mut scope = Scope::new(None);
    let result = evaluate(&program("{ let x = 5  x& }"), &mut scope);
    match result {
        Ok(Some(Data::Reference(reference))) => {
            assert_eq!(reference.value(&scope), Data::Number(5));
            assert_eq!(scope.slot(reference.source).borrow_count, 1);
        }
        other => panic!("expected a reference, got {other:?}"),
    }
    assert_eq!(scope.resolve("x"), Err(MovaError::Runtime("Unable to resolve x".to_string())));
}

fn count_of(scope: &Scope, name: &str) -> usize {
    scope.slot(scope.find_slot(name).unwrap()).borrow_count
}

#[test]
fn a_failed_operation_gives_its_borrows_back() {
    let mut scope = Scope::new(None);
    assert_eq!(evaluate(&program("fn f() = 1  let x = 10"), &mut scope), Ok(None));
    assert_eq!(
        evaluate(&program("f& + 1"), &mut scope),
        runtime("Unexpected operator '+' for operands 'Reference(Reference { source: 0 })' and 'Number(1)'")
    );
    assert_eq!(count_of(&scope, "f"), 0);
    assert_eq!(
        evaluate(&program("{ x& + 1 }"), &mut scope),
        runtime("Unexpected operator '+' for operands 'Reference(Reference { source: 1 })' and 'Number(1)'")
    );
    assert_eq!(count_of(&scope, "x"), 0);
    let sum = Node::Expression(Rc::new(Expression::BinaryExpression {
        operator: Rc::new("+".to_string()),
        left: Rc::new(Expression::Number(1)),
        right: Rc::new(Expression::Reference(Rc::new("f".to_string()))),
    }));
    assert_eq!(
        evaluate(&sum, &mut scope),
        runtime("Unexpected operator '+' for operands 'Number(1)' and 'Reference(Reference { source: 0 })'")
    );
    assert_eq!(count_of(&scope, "f"), 0);
    assert_eq!(evaluate(&program("f()"), &mut scope), number(1));
}

#[test]
fn a_failed_operand_gives_the_other_operands_borrow_back() {
    let mut scope = Scope::new(None);
    assert_eq!(evaluate(&program("fn f() = 1"), &mut scope), Ok(None));
    assert_eq!(evaluate(&program("f& + nope"), &mut scope), runtime("Unable to resolve nope"));
    assert_eq!(count_of(&scope, "f"), 0);
    let unit = Rc::new(Expression::Block(Rc::new(vec![])));
    let borrow = Rc::new(Expression::Reference(Rc::new("f".to_string())));
    let node = Node::Expression(Rc::new(Expression::BinaryExpression {
        operator: Rc::new("+".to_string()),
        left: borrow,
        right: unit,
    }));
    assert_eq!(
        evaluate(&node, &mut scope),
        runtime("Expected expression, but received statement as right operand")
    );
    assert_eq!(count_of(&scope, "f"), 0);
    assert_eq!(evaluate(&program("f()"), &mut scope), number(1));
}

#[test]
fn a_failed_call_gives_the_borrows_of_its_arguments_back() {
    let mut scope = Scope::new(None);
    let setup = "fn f() = 1  fn g(a, b) = 2  fn h(a, b) = 3  fn k(a) = a + 1  fn m(a, b) = 4";
    assert_eq!(evaluate(&program(setup), &mut scope), Ok(None));
    assert_eq!(evaluate(&program("g(f&, nope)"), &mut scope), runtime("Unable to resolve nope"));
    assert_eq!(count_of(&scope, "f"), 0);
    assert_eq!(
        evaluate(&program("h(f&, {})"), &mut scope),
        runtime("Expected expression, but received statement as argument")
    );
    assert_eq!(count_of(&scope, "f"), 0);
    assert_eq!(
        evaluate(&program("k(f&)"), &mut scope),
        runtime("Unexpected operator '+' for operands 'Reference(Reference { source: 0 })' and 'Number(1)'")
    );
    assert_eq!(count_of(&scope, "f"), 0);
    let mut shallow = scope.with_call_depth(0);
    assert_eq!(
        evaluate(&program("m(f&, f&)"), &mut shallow),
        runtime("Call depth limit exceeded")
    );
    assert_eq!(count_of(&shallow, "f"), 0);
    let mut scope = shallow.with_call_depth(8);
    assert_eq!(evaluate(&program("f()"), &mut scope), number(1));
}

#[test]
fn a_value_that_is_not_callable_is_dropped() {
    let mut scope = Scope::new(None);
    assert_eq!(evaluate(&program("fn f() = 1  let r = f&"), &mut scope), Ok(None));
    assert_eq!(count_of(&scope, "f"), 1);
    assert_eq!(evaluate(&program("r()"), &mut scope), runtime("'r' is not callable"));
    assert_eq!(count_of(&scope, "f"), 0);
    assert_eq!(evaluate(&program("f()"), &mut scope), number(1));
}

#[test]
fn a_failed_statement_gives_the_borrow_of_the_value_before_it_back() {
    let mut scope = Scope::new(None);
    assert_eq!(evaluate(&program("fn f() = 1"), &mut scope), Ok(None));
    assert_eq!(
        evaluate(&program("{ f&  let x = nope }"), &mut scope),
        runtime("Unable to resolve nope")
    );
    assert_eq!(count_of(&scope, "f"), 0);
    assert_eq!(evaluate(&program("f&  let x = nope"), &mut scope), runtime("Unable to resolve nope"));
    assert_eq!(count_of(&scope, "f"), 0);
    assert_eq!(evaluate(&program("{ let r = f&  nope }"), &mut scope), runtime("Unable to resolve nope"));
    assert_eq!(count_of(&scope, "f"), 0);
    assert_eq!(evaluate(&program("f()"), &mut scope), number(1));
}

#[test]
fn a_value_is_shown_with_what_it_holds() {
    assert_eq!(Data::Number(-7).describe(), "Number(-7)");
    assert_eq!(Data::Number(i32::MIN).describe(), "Number(-2147483648)");
    assert_eq!(Data::Boolean(false).describe(), "Boolean(false)");
    assert_eq!(Data::Moved.describe(), "Moved");
    let function = run("fn add(a, b) = a + b  add").unwrap().unwrap();
    assert_eq!(
        function.describe(),
        "Function { parameters: [\"a\", \"b\"], body: BinaryExpression { operator: \"+\", \
         left: Identifier(\"a\"), right: Identifier(\"b\") }, definition_scope: 1 }"
    );
}
