use mova::error::{MovaError, Position};
use mova::lexer::{tokenize, Token};

#[test]
fn it_tokenizes_identifier() -> Result<(), MovaError> {
    let identifiers = vec![
        Token::Identifier("Mova".into()),
        Token::Identifier("loves".into()),
        Token::Identifier("ownership".into()),
    ];
    assert_eq!(tokenize("Mova loves ownership")?, identifiers);
    Ok(())
}

#[test]
fn it_tokenizes_number() -> Result<(), MovaError> {
    let numbers = vec![
        Token::Number("2342345".into()),
        Token::Number("123456789".into()),
        Token::Number("314".into()),
        Token::Number("1".into()),
    ];
    assert_eq!(tokenize("2342345 123456789 314 1")?, numbers);
    Ok(())
}

#[test]
fn it_tokenizes_operator() -> Result<(), MovaError> {
    let operators = vec![
        Token::Operator('+'.into()),
        Token::Operator('-'.into()),
        Token::Operator('-'.into()),
        Token::Operator('/'.into()),
    ];
    assert_eq!(tokenize("+-- /")?, operators);
    Ok(())
}

#[test]
fn it_tokenizes_special_character() -> Result<(), MovaError> {
    let special_characters = vec![
        Token::SpecialCharacter('{'.into()),
        Token::SpecialCharacter('}'.into()),
        Token::SpecialCharacter('}'.into()),
    ];
    assert_eq!(tokenize("{}}")?, special_characters);
    Ok(())
}

#[test]
fn it_tokenizes_assignment() -> Result<(), MovaError> {
    assert_eq!(tokenize("=")?, vec![Token::Assignment]);
    Ok(())
}

#[test]
fn it_skips_comment() -> Result<(), MovaError> {
    assert_eq!(
        tokenize("1 // comment here\n2")?,
        vec![Token::Number("1".into()), Token::Number("2".into())]
    );
    Ok(())
}

#[test]
fn comment_next_to_a_token_does_not_merge_tokens() {
    assert_eq!(
        tokenize("1//c\n2"),
        Ok(vec![Token::Number("1".into()), Token::Number("2".into())])
    );
}

#[test]
fn it_tokenizes_keywords_and_booleans() {
    assert_eq!(
        tokenize("let fn true false lets _x9"),
        Ok(vec![
            Token::Keyword("let".into()),
            Token::Keyword("fn".into()),
            Token::Boolean(true),
            Token::Boolean(false),
            Token::Identifier("lets".into()),
            Token::Identifier("_x9".into()),
        ])
    );
}

#[test]
fn it_tokenizes_every_operator() {
    let expected: Vec<Token> = ["+", "-", "*", "/", "(", ")", "&"]
        .iter()
        .map(|text| Token::Operator(text.to_string()))
        .collect();
    assert_eq!(tokenize("+-*/()&"), Ok(expected));
}

#[test]
fn a_digit_run_ends_at_a_letter() {
    assert_eq!(
        tokenize("12ab"),
        Ok(vec![Token::Number("12".into()), Token::Identifier("ab".into())])
    );
}

#[test]
fn an_unterminated_comment_ends_the_input() {
    assert_eq!(tokenize("x // no newline"), Ok(vec![Token::Identifier("x".into())]));
}

#[test]
fn empty_input_has_no_tokens() {
    assert_eq!(tokenize(""), Ok(vec![]));
    assert_eq!(tokenize(" \t\r\n\u{a0}\u{3000}"), Ok(vec![]));
}

#[test]
fn an_unknown_character_is_a_lexer_error_with_its_place() {
    assert_eq!(
        tokenize("let x = 1\n  $"),
        Err(MovaError::Lexer {
            message: "Unexpected character: '$'".into(),
            position: Position { line: 2, character: 12 },
        })
    );
}

#[test]
fn the_offset_of_a_lexer_error_counts_bytes() {
    assert_eq!(
        tokenize("// é\n// ü\n?"),
        Err(MovaError::Lexer {
            message: "Unexpected character: '?'".into(),
            position: Position { line: 3, character: 12 },
        })
    );
}

#[test]
fn a_lexer_error_reports_itself() {
    let error = tokenize("#").unwrap_err();
    assert_eq!(error.report(), "Lexer error at 1:0: Unexpected character: '#'");
}
