use mova::lexer::{tokenize, Token};
use mova::serializer::serialize;

#[test]
fn tokens_are_written_with_one_space_between_neighbours() {
    let tokens = vec![
        Token::Keyword("let".into()),
        Token::Identifier("x".into()),
        Token::Assignment,
        Token::Number("10".into()),
        Token::Operator("/".into()),
        Token::Operator("/".into()),
        Token::SpecialCharacter('{'),
        Token::Boolean(true),
        Token::Boolean(false),
    ];
    assert_eq!(serialize(&tokens), "let x = 10 / / { true false");
}

#[test]
fn no_tokens_are_written_as_the_empty_text() {
    assert_eq!(serialize(&vec![]), "");
    assert_eq!(serialize(&vec![Token::Assignment]), "=");
}

#[test]
fn written_tokens_are_read_back() {
    let source = "fn add(a,b)=a+b//sum\n{let r=x& add(4 , 5)/2*true}";
    let tokens = tokenize(source).unwrap();
    let written = serialize(&tokens);
    assert_eq!(written, "fn add ( a , b ) = a + b { let r = x & add ( 4 , 5 ) / 2 * true }");
    assert_eq!(tokenize(&written), Ok(tokens));
}

#[test]
fn writing_is_idempotent_after_one_round() {
    let tokens = tokenize("1/2 / 3").unwrap();
    let once = serialize(&tokens);
    let twice = serialize(&tokenize(&once).unwrap());
    assert_eq!(once, "1 / 2 / 3");
    assert_eq!(once, twice);
}
