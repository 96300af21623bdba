use std::rc::Rc;

use mova::error::MovaError;
use mova::lexer::{tokenize, Token};
use mova::parser::{parse, parse_expression, parse_statement, Expression, Node, Statement};

fn number(n: i32) -> Expression {
    Expression::Number(n)
}

fn identifier(name: &str) -> Expression {
    Expression::Identifier(Rc::new(name.to_string()))
}

fn binary(operator: &str, left: Expression, right: Expression) -> Expression {
    Expression::BinaryExpression {
        operator: Rc::new(operator.to_string()),
        left: Rc::new(left),
        right: Rc::new(right),
    }
}

fn call(name: &str, arguments: Vec<Expression>) -> Expression {
    Expression::Call { name: Rc::new(name.to_string()), arguments: Rc::new(arguments) }
}

fn expression(e: Expression) -> Node {
    Node::Expression(Rc::new(e))
}

fn variable(name: &str, value: Expression) -> Node {
    Node::Statement(Rc::new(Statement::Variable {
        name: Rc::new(name.to_string()),
        value: Rc::new(value),
    }))
}

fn function(name: &str, parameters: &[&str], body: Expression) -> Node {
    Node::Statement(Rc::new(Statement::Function {
        name: Rc::new(name.to_string()),
        parameters: Rc::new(parameters.iter().map(|p| p.to_string()).collect()),
        body: Rc::new(body),
    }))
}

fn program(nodes: Vec<Node>) -> Node {
    Node::Expression(Rc::new(Expression::Program(Rc::new(nodes))))
}

fn parsed(source: &str) -> Result<Node, MovaError> {
    parse(tokenize(source).unwrap())
}

fn parser_error(message: &str) -> Result<Node, MovaError> {
    Err(MovaError::Parser(message.to_string()))
}

#[test]
fn an_empty_token_stream_is_an_empty_program() {
    assert_eq!(parse(vec![]), Ok(program(vec![])));
}

#[test]
fn a_product_binds_tighter_than_a_sum() {
    assert_eq!(
        parsed("a * b + 1"),
        Ok(program(vec![expression(binary(
            "+",
            binary("*", identifier("a"), identifier("b")),
            number(1)
        ))]))
    );
    assert_eq!(
        parsed("1 + a * b"),
        Ok(program(vec![expression(binary(
            "+",
            number(1),
            binary("*", identifier("a"), identifier("b"))
        ))]))
    );
}

#[test]
fn operators_of_one_level_group_to_the_left() {
    assert_eq!(
        parsed("1 - 2 - 3"),
        Ok(program(vec![expression(binary(
            "-",
            binary("-", number(1), number(2)),
            number(3)
        ))]))
    );
    assert_eq!(
        parsed("8 / 4 * 2"),
        Ok(program(vec![expression(binary(
            "*",
            binary("/", number(8), number(4)),
            number(2)
        ))]))
    );
}

#[test]
fn it_parses_a_variable_declaration() {
    assert_eq!(parsed("let x = 10"), Ok(program(vec![variable("x", number(10))])));
}

#[test]
fn it_parses_a_function_declaration() {
    assert_eq!(
        parsed("fn add(a, b) = a + b"),
        Ok(program(vec![function(
            "add",
            &["a", "b"],
            binary("+", identifier("a"), identifier("b"))
        )]))
    );
    assert_eq!(parsed("fn seven() = 7"), Ok(program(vec![function("seven", &[], number(7))])));
}

#[test]
fn any_token_separates_parameters() {
    assert_eq!(
        parsed("fn f(a b + a) = a"),
        Ok(program(vec![function("f", &["a", "b", "a"], identifier("a"))]))
    );
}

#[test]
fn it_parses_calls() {
    assert_eq!(parsed("f()"), Ok(program(vec![expression(call("f", vec![]))])));
    assert_eq!(
        parsed("add(4, 5 * 2)"),
        Ok(program(vec![expression(call(
            "add",
            vec![number(4), binary("*", number(5), number(2))]
        ))]))
    );
    assert_eq!(parsed("f(1,)"), Ok(program(vec![expression(call("f", vec![number(1)]))])));
    assert_eq!(
        parsed("f(1) + 2"),
        Ok(program(vec![expression(binary("+", call("f", vec![number(1)]), number(2)))]))
    );
}

#[test]
fn a_call_binds_looser_than_arithmetic() {
    assert_eq!(
        parsed("1 + f(2)"),
        parser_error(
            "Expected identifier to be called but found BinaryExpression { operator: \"+\", \
             left: Number(1), right: Identifier(\"f\") }"
        )
    );
    assert_eq!(
        parsed("true(1)"),
        parser_error("Expected identifier to be called but found Boolean(true)")
    );
}

#[test]
fn it_parses_a_borrow() {
    assert_eq!(
        parsed("let r = x&"),
        Ok(program(vec![variable("r", Expression::Reference(Rc::new("x".to_string())))]))
    );
    assert_eq!(parsed("1&"), parser_error("Unexpected token found: Number(1)"));
    assert_eq!(parsed("x&&"), parser_error("Unexpected token found: Reference(\"x\")"));
}

#[test]
fn it_parses_a_block_with_its_statements() {
    assert_eq!(
        parsed("{ let m = n  m + 1 }"),
        Ok(program(vec![expression(Expression::Block(Rc::new(vec![
            variable("m", identifier("n")),
            expression(binary("+", identifier("m"), number(1))),
        ])))]))
    );
    assert_eq!(parsed("{}"), Ok(program(vec![expression(Expression::Block(Rc::new(vec![])))])));
}

#[test]
fn it_parses_booleans() {
    assert_eq!(
        parsed("true false"),
        Ok(program(vec![
            expression(Expression::Boolean(true)),
            expression(Expression::Boolean(false)),
        ]))
    );
}

#[test]
fn ill_formed_argument_lists_are_parser_errors() {
    assert_eq!(
        parsed("f(1 2)"),
        parser_error("Expected another argument expression or argument list to be closed")
    );
    assert_eq!(parsed("f(1"), parser_error("Expected argument list to be closed"));
    assert_eq!(
        parsed("f("),
        parser_error("Expected another argument expression or argument list to be closed")
    );
    assert_eq!(parsed("f(1,"), parser_error("Expected another argument expression or argument list to be closed"));
}

#[test]
fn ill_formed_statements_are_parser_errors() {
    assert_eq!(parsed("let"), parser_error("Expected identifier after `let` keyword"));
    assert_eq!(parsed("let 1"), parser_error("Expected identifier but got: Number(\"1\")"));
    assert_eq!(parsed("let x"), parser_error("Expected assignment after identifier"));
    assert_eq!(parsed("let x 1"), parser_error("Unexpected token found: Number(\"1\")"));
    assert_eq!(parsed("let x ="), parser_error("Unexpected end of input"));
    assert_eq!(parsed("fn"), parser_error("Expected function name after `fn` keyword"));
    assert_eq!(parsed("fn 1"), parser_error("Expected function name after `fn` keyword"));
    assert_eq!(parsed("fn f"), parser_error("Expected parameter list after function name"));
    assert_eq!(parsed("fn f ="), parser_error("Expected parameter list after function name"));
    assert_eq!(parsed("fn f(a"), parser_error("Expected parameter list to be closed"));
    assert_eq!(parsed("fn f(a)"), parser_error("Expected assignment before function body"));
    assert_eq!(parsed("fn f(a) 1"), parser_error("Expected assignment before function body"));
    assert_eq!(parsed("fn f(a) ="), parser_error("Unexpected end of input"));
}

#[test]
fn ill_formed_expressions_are_parser_errors() {
    assert_eq!(parsed("+"), parser_error("Unexpected token found: Operator(\"+\")"));
    assert_eq!(parsed("1 +"), parser_error("Unexpected end of input"));
    assert_eq!(parsed("= 1"), parser_error("Unexpected token found: Assignment"));
    assert_eq!(parsed("}"), parser_error("Unexpected token found: SpecialCharacter('}')"));
    assert_eq!(parsed("{ 1"), parser_error("Expected block to be closed"));
    assert_eq!(parsed("1 + let"), parser_error("Unexpected token found: Keyword(\"let\")"));
    assert_eq!(
        parse(vec![Token::Keyword("if".to_string())]),
        parser_error("Unexpected keyword found: if")
    );
}

#[test]
fn a_number_must_fit_in_32_bits() {
    assert_eq!(parsed("2147483647"), Ok(program(vec![expression(number(2147483647))])));
    assert_eq!(parsed("2147483648"), parser_error("Invalid number: 2147483648"));
    assert_eq!(parsed("0000000000000000000012"), Ok(program(vec![expression(number(12))])));
    assert_eq!(
        parsed("99999999999999999999999999"),
        parser_error("Invalid number: 99999999999999999999999999")
    );
}

#[test]
fn a_number_token_is_read_as_a_signed_numeral() {
    assert_eq!(
        parse(vec![Token::Number("-2147483648".to_string())]),
        Ok(program(vec![expression(number(-2147483648))]))
    );
    assert_eq!(
        parse(vec![Token::Number("+7".to_string())]),
        Ok(program(vec![expression(number(7))]))
    );
    assert_eq!(
        parse(vec![Token::Number("-2147483649".to_string())]),
        parser_error("Invalid number: -2147483649")
    );
    assert_eq!(parse(vec![Token::Number("".to_string())]), parser_error("Invalid number: "));
    assert_eq!(parse(vec![Token::Number("-".to_string())]), parser_error("Invalid number: -"));
    assert_eq!(parse(vec![Token::Number("1x".to_string())]), parser_error("Invalid number: 1x"));
}

#[test]
fn identical_token_streams_give_identical_trees() {
    let source = "fn f(n) = { let m = n  m + 1 }  f(41)";
    let first = parse(tokenize(source).unwrap());
    let second = parse(tokenize(source).unwrap());
    assert!(first.is_ok());
    assert_eq!(first, second);
    let failing = "fn f(n) = { let m = ";
    assert_eq!(parse(tokenize(failing).unwrap()), parse(tokenize(failing).unwrap()));
}

#[test]
fn a_statement_is_read_from_the_top_of_the_stack() {
    let mut stack = tokenize("let x = 1 + 2 y").unwrap();
    stack.reverse();
    assert_eq!(
        parse_statement(&mut stack),
        Ok(variable("x", binary("+", number(1), number(2))))
    );
    assert_eq!(stack, vec![Token::Identifier("y".to_string())]);
    assert_eq!(parse_statement(&mut stack), Ok(expression(identifier("y"))));
    assert_eq!(parse_statement(&mut stack), parser_error("Unexpected end of input"));
}

#[test]
fn an_expression_is_read_from_the_top_of_the_stack() {
    let mut stack = tokenize("a * 2 }").unwrap();
    stack.reverse();
    assert_eq!(parse_expression(&mut stack), Ok(binary("*", identifier("a"), number(2))));
    assert_eq!(stack, vec![Token::SpecialCharacter('}')]);
    let mut empty = vec![];
    assert_eq!(
        parse_expression(&mut empty),
        Err(MovaError::Parser("Unexpected end of input".to_string()))
    );
}

#[test]
fn a_tree_is_written_with_the_names_of_its_nodes() {
    let tree = parsed("fn f(a, b) = { let m = a&  g(m, true) }  0 - 5  h()").unwrap();
    let text = match &tree {
        Node::Expression(program) => program.describe(),
        Node::Statement(_) => panic!("a program is an expression"),
    };
    assert_eq!(
        text,
        "Program([Statement(Function { name: \"f\", parameters: [\"a\", \"b\"], body: \
         Block([Statement(Variable { name: \"m\", value: Reference(\"a\") }), \
         Expression(Call { name: \"g\", arguments: [Identifier(\"m\"), Boolean(true)] })]) }), \
         Expression(BinaryExpression { operator: \"-\", left: Number(0), right: Number(5) }), \
         Expression(Call { name: \"h\", arguments: [] })])"
    );
    assert_eq!(tree.describe(), format!("Expression({text})"));
}
