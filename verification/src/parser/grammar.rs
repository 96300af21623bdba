//! What the parser returns, as functions on token sequences.
//!
//! Each function takes the tokens that are still to be read, in reading order, and says what
//! is parsed from their front and which tokens are left. A failure is the message of the
//! parser error that is returned.

use vstd::prelude::*;
use crate::error::{ErrorView, MovaError};
use crate::lexer::{token_views, Token, TokenView};
use crate::parser::expression::ExpressionView;
use crate::parser::node::NodeView;
use crate::parser::printer::describe_expression;
use crate::parser::statement::StatementView;
use crate::text::{number_value, same_text};

verus! {

/// The outcome of a parsing step: what was parsed or why nothing was, and the tokens that are
/// left.
pub struct Parsed<T> {
    pub result: Result<T, Seq<char>>,
    pub rest: Seq<TokenView>,
}

/// The outcome of a step that parsed `value` and left `rest`.
pub open spec fn done<T>(value: T, rest: Seq<TokenView>) -> Parsed<T> {
    Parsed { result: Ok(value), rest }
}

/// The outcome of a step that failed with `message` and left `rest`.
pub open spec fn fail<T>(message: Seq<char>, rest: Seq<TokenView>) -> Parsed<T> {
    Parsed { result: Err(message), rest }
}

/// The outcome where a step that must read a token read none. The recursive functions below
/// test for progress so that they are well founded. No parse ends here: every step that
/// succeeds reads a token, as [`lemma_expression_reads`] and [`lemma_statement_reads`] show.
pub open spec fn stalled<T>(rest: Seq<TokenView>) -> Parsed<T> {
    fail("Parser made no progress"@, rest)
}

/// The tokens still to be read, in reading order, where `stack` holds them with the next one
/// on top.
pub open spec fn upcoming(stack: Seq<Token>) -> Seq<TokenView> {
    token_views(stack).reverse()
}

/// Taking the top of the stack is reading the next token.
pub proof fn lemma_upcoming(stack: Seq<Token>)
    ensures
        upcoming(stack).len() == stack.len(),
        stack.len() > 0 ==> upcoming(stack)[0] == stack.last()@,
        stack.len() > 0 ==> upcoming(stack.drop_last()) == upcoming(stack).skip(1),
        stack.len() > 1 ==> upcoming(stack)[1] == stack[stack.len() - 2]@,
{
    if stack.len() > 0 {
        assert(upcoming(stack.drop_last()) =~= upcoming(stack).skip(1));
    }
}

/// Whether `error` is the parser error with the message of the failure `result`.
pub open spec fn is_failure<T>(error: MovaError, result: Result<T, Seq<char>>) -> bool {
    match result {
        Ok(_) => false,
        Err(message) => error@ == ErrorView::Parser(message),
    }
}

/// The parser error with the given message.
pub fn parser_error(message: String) -> (error: MovaError)
    ensures
        error@ == ErrorView::Parser(message@),
{
    MovaError::Parser(message)
}

/// Whether `token` is the operator written `text`.
pub fn is_operator(token: &Token, text: &str) -> (b: bool)
    ensures
        b == (token@ == TokenView::Operator(text@)),
{
    match token {
        Token::Operator(operator) => same_text(operator.as_str(), text),
        _ => false,
    }
}

/// Whether `token` is the special character `c`.
pub fn is_special(token: &Token, c: char) -> (b: bool)
    ensures
        b == (token@ == TokenView::SpecialCharacter(c)),
{
    match token {
        Token::SpecialCharacter(special) => *special == c,
        _ => false,
    }
}

/// The binding powers of an infix operator, left and right.
pub open spec fn infix_binding_power(operator: Seq<char>) -> Option<(u8, u8)> {
    if operator == "+"@ || operator == "-"@ {
        Some((3u8, 4u8))
    } else if operator == "*"@ || operator == "/"@ {
        Some((5u8, 6u8))
    } else {
        None
    }
}

/// The binding power of a postfix operator: the call and the borrow.
pub open spec fn postfix_binding_power(operator: Seq<char>) -> Option<(u8, ())> {
    if operator == "("@ || operator == "&"@ {
        Some((2u8, ()))
    } else {
        None
    }
}

/// The message for a token stream that ends where a token is needed.
pub open spec fn end_of_input() -> Seq<char> {
    "Unexpected end of input"@
}

/// The message for a token that cannot stand where it stands.
pub open spec fn unexpected_token(token: TokenView) -> Seq<char> {
    "Unexpected token found: "@ + token.describe()
}

/// The message for a call of what is no identifier.
pub open spec fn not_an_identifier(called: ExpressionView) -> Seq<char> {
    "Expected identifier to be called but found "@ + describe_expression(called)
}

/// The message for an argument list that ends with the token stream.
pub open spec fn list_not_closed() -> Seq<char> {
    "Expected argument list to be closed"@
}

/// The message for an argument list in which neither an argument nor its end follows.
pub open spec fn argument_expected() -> Seq<char> {
    "Expected another argument expression or argument list to be closed"@
}

/// An atom: an identifier, a number or a boolean.
pub open spec fn parse_atom_spec(tokens: Seq<TokenView>) -> Parsed<ExpressionView> {
    if tokens.len() == 0 {
        fail(end_of_input(), tokens)
    } else {
        match tokens[0] {
            TokenView::Identifier(name) => done(ExpressionView::Identifier(name), tokens.skip(1)),
            TokenView::Number(text) => match number_value(text) {
                Some(n) => done(ExpressionView::Number(n), tokens.skip(1)),
                None => fail("Invalid number: "@ + text, tokens.skip(1)),
            },
            TokenView::Boolean(b) => done(ExpressionView::Boolean(b), tokens.skip(1)),
            token => fail(unexpected_token(token), tokens.skip(1)),
        }
    }
}

/// A binary expression whose operators bind at least as tightly as `binding_power`.
pub open spec fn parse_binary_expression_spec(tokens: Seq<TokenView>, binding_power: u8) -> Parsed<
    ExpressionView,
>
    decreases tokens.len(), 2int,
{
    let atom = parse_atom_spec(tokens);
    match atom.result {
        Err(message) => fail(message, atom.rest),
        Ok(left) => parse_operators_spec(atom.rest, left, binding_power),
    }
}

/// The operators that follow the operand `left`, applied to it one after the other for as
/// long as they bind at least as tightly as `binding_power`.
pub open spec fn parse_operators_spec(
    tokens: Seq<TokenView>,
    left: ExpressionView,
    binding_power: u8,
) -> Parsed<ExpressionView>
    decreases tokens.len(), 1int,
{
    if tokens.len() == 0 {
        done(left, tokens)
    } else {
        match tokens[0] {
            TokenView::Operator(operator) => {
                if let Some((power, _)) = postfix_binding_power(operator) {
                    if power < binding_power {
                        done(left, tokens)
                    } else if operator == "("@ {
                        let call = parse_call_spec(tokens, left);
                        match call.result {
                            Err(message) => fail(message, call.rest),
                            Ok(called) => if call.rest.len() < tokens.len() {
                                parse_operators_spec(call.rest, called, binding_power)
                            } else {
                                stalled(call.rest)
                            },
                        }
                    } else {
                        match left {
                            ExpressionView::Identifier(name) => parse_operators_spec(
                                tokens.skip(1),
                                ExpressionView::Reference(name),
                                binding_power,
                            ),
                            _ => fail(
                                "Unexpected token found: "@ + describe_expression(left),
                                tokens,
                            ),
                        }
                    }
                } else if let Some((left_power, right_power)) = infix_binding_power(operator) {
                    if left_power < binding_power {
                        done(left, tokens)
                    } else {
                        let right = parse_binary_expression_spec(tokens.skip(1), right_power);
                        match right.result {
                            Err(message) => fail(message, right.rest),
                            Ok(operand) => if right.rest.len() < tokens.len() {
                                parse_operators_spec(
                                    right.rest,
                                    ExpressionView::BinaryExpression {
                                        operator,
                                        left: Box::new(left),
                                        right: Box::new(operand),
                                    },
                                    binding_power,
                                )
                            } else {
                                stalled(right.rest)
                            },
                        }
                    }
                } else {
                    done(left, tokens)
                }
            },
            _ => done(left, tokens),
        }
    }
}

/// A call of `left`: `tokens` begin with the opening parenthesis of its argument list. The
/// arguments are read first; only then is `left` required to be an identifier.
pub open spec fn parse_call_spec(tokens: Seq<TokenView>, left: ExpressionView) -> Parsed<
    ExpressionView,
>
    decreases tokens.len(), 0int,
{
    if tokens.len() == 0 {
        fail(end_of_input(), tokens)
    } else {
        let list = parse_arguments_spec(tokens.skip(1), Seq::empty());
        match list.result {
            Err(message) => fail(message, list.rest),
            Ok(arguments) => match left {
                ExpressionView::Identifier(name) => done(
                    ExpressionView::Call { name, arguments },
                    list.rest,
                ),
                _ => fail(not_an_identifier(left), list.rest),
            },
        }
    }
}

/// The rest of an argument list, up to and with its closing parenthesis; `arguments` are
/// those read so far. A comma follows each argument but the last, where it may.
pub open spec fn parse_arguments_spec(tokens: Seq<TokenView>, arguments: Seq<ExpressionView>)
    -> Parsed<Seq<ExpressionView>>
    decreases tokens.len(), 5int,
{
    if tokens.len() == 0 {
        fail(argument_expected(), tokens)
    } else if tokens[0] == TokenView::Operator(")"@) {
        done(arguments, tokens.skip(1))
    } else {
        let argument = parse_expression_spec(tokens);
        match argument.result {
            Err(message) => fail(message, argument.rest),
            Ok(expression) => if argument.rest.len() == 0 {
                fail(list_not_closed(), argument.rest)
            } else if argument.rest.len() >= tokens.len() {
                stalled(argument.rest)
            } else if argument.rest[0] == TokenView::SpecialCharacter(',') {
                parse_arguments_spec(argument.rest.skip(1), arguments.push(expression))
            } else if argument.rest[0] == TokenView::Operator(")"@) {
                parse_arguments_spec(argument.rest, arguments.push(expression))
            } else {
                fail(argument_expected(), argument.rest)
            },
        }
    }
}

/// An expression: a block or a binary expression.
pub open spec fn parse_expression_spec(tokens: Seq<TokenView>) -> Parsed<ExpressionView>
    decreases tokens.len(), 4int,
{
    parse_block_spec(tokens)
}

/// A block where `tokens` begin with `{`, else a binary expression.
pub open spec fn parse_block_spec(tokens: Seq<TokenView>) -> Parsed<ExpressionView>
    decreases tokens.len(), 3int,
{
    if tokens.len() == 0 {
        fail(end_of_input(), tokens)
    } else if tokens[0] == TokenView::SpecialCharacter('{') {
        parse_block_items_spec(tokens.skip(1), Seq::empty())
    } else {
        parse_binary_expression_spec(tokens, 0)
    }
}

/// The rest of a block, up to and with its closing brace; `items` are the nodes read so far.
pub open spec fn parse_block_items_spec(tokens: Seq<TokenView>, items: Seq<NodeView>) -> Parsed<
    ExpressionView,
>
    decreases tokens.len(), 6int,
{
    if tokens.len() == 0 {
        fail("Expected block to be closed"@, tokens)
    } else if tokens[0] == TokenView::SpecialCharacter('}') {
        done(ExpressionView::Block(items), tokens.skip(1))
    } else {
        let item = parse_statement_spec(tokens);
        match item.result {
            Err(message) => fail(message, item.rest),
            Ok(node) => if item.rest.len() < tokens.len() {
                parse_block_items_spec(item.rest, items.push(node))
            } else {
                stalled(item.rest)
            },
        }
    }
}

/// The node that holds an expression, where one was parsed.
pub open spec fn as_node(parsed: Parsed<ExpressionView>) -> Parsed<NodeView> {
    match parsed.result {
        Ok(expression) => done(NodeView::Expression(Box::new(expression)), parsed.rest),
        Err(message) => fail(message, parsed.rest),
    }
}

/// A statement: a `let`, a `fn`, or an expression.
pub open spec fn parse_statement_spec(tokens: Seq<TokenView>) -> Parsed<NodeView>
    decreases tokens.len(), 5int,
{
    if tokens.len() == 0 {
        fail(end_of_input(), tokens)
    } else {
        match tokens[0] {
            TokenView::Keyword(keyword) => if keyword == "let"@ {
                parse_variable_declaration_spec(tokens)
            } else if keyword == "fn"@ {
                parse_function_spec(tokens)
            } else {
                fail("Unexpected keyword found: "@ + keyword, tokens)
            },
            _ => as_node(parse_expression_spec(tokens)),
        }
    }
}

/// `let name = value`: `tokens` begin with the keyword.
pub open spec fn parse_variable_declaration_spec(tokens: Seq<TokenView>) -> Parsed<NodeView>
    decreases tokens.len(), 0int,
{
    if tokens.len() == 0 {
        fail(end_of_input(), tokens)
    } else if tokens.len() == 1 {
        fail("Expected identifier after `let` keyword"@, tokens.skip(1))
    } else {
        match tokens[1] {
            TokenView::Identifier(name) => if tokens.len() == 2 {
                fail("Expected assignment after identifier"@, tokens.skip(2))
            } else {
                match tokens[2] {
                    TokenView::Assignment => {
                        let value = parse_expression_spec(tokens.skip(3));
                        match value.result {
                            Ok(expression) => done(
                                NodeView::Statement(
                                    Box::new(
                                        StatementView::Variable {
                                            name,
                                            value: Box::new(expression),
                                        },
                                    ),
                                ),
                                value.rest,
                            ),
                            Err(message) => fail(message, value.rest),
                        }
                    },
                    token => fail(unexpected_token(token), tokens.skip(3)),
                }
            },
            token => fail("Expected identifier but got: "@ + token.describe(), tokens.skip(2)),
        }
    }
}

/// The rest of a parameter list, up to but without its closing parenthesis; `parameters` are
/// the names read so far. Every identifier is a parameter, and any other token separates.
pub open spec fn parse_parameters_spec(tokens: Seq<TokenView>, parameters: Seq<Seq<char>>)
    -> Parsed<Seq<Seq<char>>>
    decreases tokens.len(),
{
    if tokens.len() == 0 {
        fail("Expected parameter list to be closed"@, tokens)
    } else if tokens[0] == TokenView::Operator(")"@) {
        done(parameters, tokens)
    } else {
        match tokens[0] {
            TokenView::Identifier(name) => parse_parameters_spec(
                tokens.skip(1),
                parameters.push(name),
            ),
            _ => parse_parameters_spec(tokens.skip(1), parameters),
        }
    }
}

/// A parameter list never hands back more tokens than it was given.
pub proof fn lemma_parameters_read(tokens: Seq<TokenView>, parameters: Seq<Seq<char>>)
    ensures
        parse_parameters_spec(tokens, parameters).rest.len() <= tokens.len(),
    decreases tokens.len(),
{
    if tokens.len() == 0 {
    } else if tokens[0] == TokenView::Operator(")"@) {
    } else {
        match tokens[0] {
            TokenView::Identifier(name) => {
                lemma_parameters_read(tokens.skip(1), parameters.push(name));
            },
            _ => {
                lemma_parameters_read(tokens.skip(1), parameters);
            },
        }
    }
}

#[via_fn]
proof fn parse_function_decreases(tokens: Seq<TokenView>) {
    if tokens.len() > 2 {
        lemma_parameters_read(tokens.skip(3), Seq::empty());
    }
}

/// `fn name(parameters) = body`: `tokens` begin with the keyword.
pub open spec fn parse_function_spec(tokens: Seq<TokenView>) -> Parsed<NodeView>
    decreases tokens.len(), 0int,
    via parse_function_decreases
{
    if tokens.len() == 0 {
        fail(end_of_input(), tokens)
    } else if tokens.len() == 1 {
        fail("Expected function name after `fn` keyword"@, tokens.skip(1))
    } else {
        match tokens[1] {
            TokenView::Identifier(name) => if tokens.len() == 2 || tokens[2]
                != TokenView::Operator("("@) {
                fail(
                    "Expected parameter list after function name"@,
                    if tokens.len() == 2 {
                        tokens.skip(2)
                    } else {
                        tokens.skip(3)
                    },
                )
            } else {
                let list = parse_parameters_spec(tokens.skip(3), Seq::empty());
                match list.result {
                    Err(message) => fail(message, list.rest),
                    Ok(parameters) => if list.rest.len() < 2 || list.rest[1]
                        != TokenView::Assignment {
                        fail(
                            "Expected assignment before function body"@,
                            if list.rest.len() < 2 {
                                list.rest.skip(list.rest.len() as int)
                            } else {
                                list.rest.skip(2)
                            },
                        )
                    } else {
                        let body = parse_expression_spec(list.rest.skip(2));
                        match body.result {
                            Ok(expression) => done(
                                NodeView::Statement(
                                    Box::new(
                                        StatementView::Function {
                                            name,
                                            parameters,
                                            body: Box::new(expression),
                                        },
                                    ),
                                ),
                                body.rest,
                            ),
                            Err(message) => fail(message, body.rest),
                        }
                    },
                }
            },
            _ => fail("Expected function name after `fn` keyword"@, tokens.skip(2)),
        }
    }
}

/// The rest of a program; `items` are the nodes read so far.
pub open spec fn parse_program_spec(tokens: Seq<TokenView>, items: Seq<NodeView>) -> Result<
    Seq<NodeView>,
    Seq<char>,
>
    decreases tokens.len(),
{
    if tokens.len() == 0 {
        Ok(items)
    } else {
        let item = parse_statement_spec(tokens);
        match item.result {
            Err(message) => Err(message),
            Ok(node) => if item.rest.len() < tokens.len() {
                parse_program_spec(item.rest, items.push(node))
            } else {
                stalled::<Seq<NodeView>>(item.rest).result
            },
        }
    }
}

/// What `parse` returns for the tokens of a source text: the program, or the message of the
/// parser error.
pub open spec fn parse_spec(tokens: Seq<TokenView>) -> Result<NodeView, Seq<char>> {
    match parse_program_spec(tokens, Seq::empty()) {
        Ok(items) => Ok(NodeView::Expression(Box::new(ExpressionView::Program(items)))),
        Err(message) => Err(message),
    }
}

/// A step that reads an operand reads at least one token where it succeeds, and never hands
/// back more tokens than it was given.
pub open spec fn reads<T>(parsed: Parsed<T>, tokens: Seq<TokenView>) -> bool {
    &&& parsed.rest.len() <= tokens.len()
    &&& parsed.result is Ok ==> parsed.rest.len() < tokens.len()
}

/// The operators after an operand never hand back more tokens than they were given.
pub proof fn lemma_operators_read(tokens: Seq<TokenView>, left: ExpressionView, binding_power: u8)
    ensures
        parse_operators_spec(tokens, left, binding_power).rest.len() <= tokens.len(),
    decreases tokens.len(), 1int,
{
    if tokens.len() > 0 {
        match tokens[0] {
            TokenView::Operator(operator) => {
                if let Some((power, _)) = postfix_binding_power(operator) {
                    if power < binding_power {
                    } else if operator == "("@ {
                        lemma_call_reads(tokens, left);
                        let call = parse_call_spec(tokens, left);
                        match call.result {
                            Ok(called) => {
                                lemma_operators_read(call.rest, called, binding_power);
                            },
                            Err(_) => {},
                        }
                    } else {
                        match left {
                            ExpressionView::Identifier(name) => {
                                lemma_operators_read(
                                    tokens.skip(1),
                                    ExpressionView::Reference(name),
                                    binding_power,
                                );
                            },
                            _ => {},
                        }
                    }
                } else if let Some((left_power, right_power)) = infix_binding_power(operator) {
                    if left_power < binding_power {
                    } else {
                        lemma_binary_expression_reads(tokens.skip(1), right_power);
                        let right = parse_binary_expression_spec(tokens.skip(1), right_power);
                        match right.result {
                            Ok(operand) => {
                                lemma_operators_read(
                                    right.rest,
                                    ExpressionView::BinaryExpression {
                                        operator,
                                        left: Box::new(left),
                                        right: Box::new(operand),
                                    },
                                    binding_power,
                                );
                            },
                            Err(_) => {},
                        }
                    }
                }
            },
            _ => {},
        }
    }
}

/// A binary expression reads at least one token.
pub proof fn lemma_binary_expression_reads(tokens: Seq<TokenView>, binding_power: u8)
    ensures
        reads(parse_binary_expression_spec(tokens, binding_power), tokens),
    decreases tokens.len(), 2int,
{
    let atom = parse_atom_spec(tokens);
    match atom.result {
        Ok(left) => {
            lemma_operators_read(atom.rest, left, binding_power);
        },
        Err(_) => {},
    }
}

/// A call reads at least its opening parenthesis.
pub proof fn lemma_call_reads(tokens: Seq<TokenView>, left: ExpressionView)
    requires
        tokens.len() > 0,
    ensures
        parse_call_spec(tokens, left).rest.len() < tokens.len(),
    decreases tokens.len(), 0int,
{
    lemma_arguments_read(tokens.skip(1), Seq::empty());
}

/// An argument list never hands back more tokens than it was given.
pub proof fn lemma_arguments_read(tokens: Seq<TokenView>, arguments: Seq<ExpressionView>)
    ensures
        parse_arguments_spec(tokens, arguments).rest.len() <= tokens.len(),
    decreases tokens.len(), 5int,
{
    if tokens.len() == 0 {
    } else if tokens[0] == TokenView::Operator(")"@) {
    } else {
        lemma_expression_reads(tokens);
        let argument = parse_expression_spec(tokens);
        match argument.result {
            Err(_) => {},
            Ok(expression) => if argument.rest.len() == 0 {
            } else if argument.rest[0] == TokenView::SpecialCharacter(',') {
                lemma_arguments_read(argument.rest.skip(1), arguments.push(expression));
            } else if argument.rest[0] == TokenView::Operator(")"@) {
                lemma_arguments_read(argument.rest, arguments.push(expression));
            },
        }
    }
}

/// An expression reads at least one token where it is parsed, so that no parse stalls.
pub proof fn lemma_expression_reads(tokens: Seq<TokenView>)
    ensures
        reads(parse_expression_spec(tokens), tokens),
    decreases tokens.len(), 4int,
{
    lemma_block_reads(tokens);
}

/// A block, or the binary expression in its place, reads at least one token.
pub proof fn lemma_block_reads(tokens: Seq<TokenView>)
    ensures
        reads(parse_block_spec(tokens), tokens),
    decreases tokens.len(), 3int,
{
    if tokens.len() == 0 {
    } else if tokens[0] == TokenView::SpecialCharacter('{') {
        lemma_block_items_read(tokens.skip(1), Seq::empty());
    } else {
        lemma_binary_expression_reads(tokens, 0);
    }
}

/// The rest of a block never hands back more tokens than it was given.
pub proof fn lemma_block_items_read(tokens: Seq<TokenView>, items: Seq<NodeView>)
    ensures
        parse_block_items_spec(tokens, items).rest.len() <= tokens.len(),
    decreases tokens.len(), 6int,
{
    if tokens.len() == 0 {
    } else if tokens[0] == TokenView::SpecialCharacter('}') {
    } else {
        lemma_statement_reads(tokens);
        let item = parse_statement_spec(tokens);
        match item.result {
            Err(_) => {},
            Ok(node) => {
                lemma_block_items_read(item.rest, items.push(node));
            },
        }
    }
}

/// A statement reads at least one token where it is parsed, so that no parse stalls.
pub proof fn lemma_statement_reads(tokens: Seq<TokenView>)
    ensures
        reads(parse_statement_spec(tokens), tokens),
    decreases tokens.len(), 5int,
{
    if tokens.len() == 0 {
    } else {
        match tokens[0] {
            TokenView::Keyword(keyword) => if keyword == "let"@ {
                if tokens.len() > 2 {
                    lemma_expression_reads(tokens.skip(3));
                }
                assert(reads(parse_variable_declaration_spec(tokens), tokens));
            } else if keyword == "fn"@ {
                if tokens.len() > 2 {
                    lemma_parameters_read(tokens.skip(3), Seq::empty());
                    let list = parse_parameters_spec(tokens.skip(3), Seq::empty());
                    if list.rest.len() >= 2 {
                        lemma_expression_reads(list.rest.skip(2));
                    }
                }
                assert(reads(parse_function_spec(tokens), tokens));
            },
            _ => {
                lemma_expression_reads(tokens);
            },
        }
    }
}

/// Parsing is a function of the token stream: streams of the same tokens give the same tree
/// or the same failure, whatever strings hold their texts.
pub proof fn lemma_parse_is_deterministic(first: Seq<Token>, second: Seq<Token>)
    requires
        token_views(first) == token_views(second),
    ensures
        parse_spec(token_views(first)) == parse_spec(token_views(second)),
{
}

} // verus!
