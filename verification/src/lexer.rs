//! The lexer: from source text to tokens.

use vstd::prelude::*;
use crate::error::{ErrorView, MovaError, Position};
use crate::text::{byte_offset, chars_of, push_char, same_text, text_of, utf8_len};

verus! {

/// A lexical unit of the language.
#[derive(Clone, Debug, PartialEq, Eq)]
pub enum Token {
    /// `let` or `fn`.
    Keyword(String),
    Identifier(String),
    /// A run of decimal digits, not yet read as a number.
    Number(String),
    Boolean(bool),
    /// One of `+ - * / ( ) &`.
    Operator(String),
    /// `=`.
    Assignment,
    /// One of `{ } ,`.
    SpecialCharacter(char),
}

/// The mathematical value of a [`Token`].
pub enum TokenView {
    Keyword(Seq<char>),
    Identifier(Seq<char>),
    Number(Seq<char>),
    Boolean(bool),
    Operator(Seq<char>),
    Assignment,
    SpecialCharacter(char),
}

impl Token {
    /// The token as a mathematical value.
    pub open spec fn view(&self) -> TokenView {
        match self {
            Token::Keyword(text) => TokenView::Keyword(text@),
            Token::Identifier(text) => TokenView::Identifier(text@),
            Token::Number(text) => TokenView::Number(text@),
            Token::Boolean(value) => TokenView::Boolean(*value),
            Token::Operator(text) => TokenView::Operator(text@),
            Token::Assignment => TokenView::Assignment,
            Token::SpecialCharacter(c) => TokenView::SpecialCharacter(*c),
        }
    }
}

impl TokenView {
    /// The token as it is shown in a message: the name of its kind, and what it holds.
    pub open spec fn describe(self) -> Seq<char> {
        match self {
            TokenView::Keyword(text) => "Keyword(\""@ + text + "\")"@,
            TokenView::Identifier(text) => "Identifier(\""@ + text + "\")"@,
            TokenView::Number(text) => "Number(\""@ + text + "\")"@,
            TokenView::Boolean(value) => if value {
                "Boolean(true)"@
            } else {
                "Boolean(false)"@
            },
            TokenView::Operator(text) => "Operator(\""@ + text + "\")"@,
            TokenView::Assignment => "Assignment"@,
            TokenView::SpecialCharacter(c) => "SpecialCharacter('"@.push(c) + "')"@,
        }
    }
}

impl Token {
    /// The token as it is shown in a message.
    pub fn describe(&self) -> (text: String)
        ensures
            text@ == self@.describe(),
    {
        match self {
            Token::Keyword(text) => String::from_str("Keyword(\"").concat(text.as_str()).concat(
                "\")",
            ),
            Token::Identifier(text) => String::from_str("Identifier(\"").concat(
                text.as_str(),
            ).concat("\")"),
            Token::Number(text) => String::from_str("Number(\"").concat(text.as_str()).concat(
                "\")",
            ),
            Token::Boolean(value) => if *value {
                String::from_str("Boolean(true)")
            } else {
                String::from_str("Boolean(false)")
            },
            Token::Operator(text) => String::from_str("Operator(\"").concat(
                text.as_str(),
            ).concat("\")"),
            Token::Assignment => String::from_str("Assignment"),
            Token::SpecialCharacter(c) => {
                let mut text = String::from_str("SpecialCharacter('");
                push_char(&mut text, *c);
                text.concat("')")
            },
        }
    }
}

/// The values of a sequence of tokens.
pub open spec fn token_views(tokens: Seq<Token>) -> Seq<TokenView> {
    tokens.map_values(|t: Token| t@)
}

/// Unicode's `White_Space` property.
pub open spec fn is_whitespace(c: char) -> bool {
    ||| '\u{9}' <= c <= '\u{d}'
    ||| c == ' '
    ||| c == '\u{85}'
    ||| c == '\u{a0}'
    ||| c == '\u{1680}'
    ||| '\u{2000}' <= c <= '\u{200a}'
    ||| c == '\u{2028}'
    ||| c == '\u{2029}'
    ||| c == '\u{202f}'
    ||| c == '\u{205f}'
    ||| c == '\u{3000}'
}

/// Whether `c` is a decimal digit.
pub open spec fn is_digit(c: char) -> bool {
    '0' <= c <= '9'
}

/// Whether a word may begin with `c`.
pub open spec fn is_word_start(c: char) -> bool {
    'a' <= c <= 'z' || 'A' <= c <= 'Z' || c == '_'
}

/// Whether a word may go on with `c`.
pub open spec fn is_word_char(c: char) -> bool {
    is_word_start(c) || is_digit(c)
}

/// Whether `c` is an operator of the language.
pub open spec fn is_operator(c: char) -> bool {
    c == '+' || c == '-' || c == '*' || c == '/' || c == '(' || c == ')' || c == '&'
}

/// Whether `c` is a special character of the language.
pub open spec fn is_special(c: char) -> bool {
    c == '{' || c == '}' || c == ','
}

/// The length of the longest prefix of `s` made of word characters.
pub open spec fn word_len(s: Seq<char>) -> nat
    decreases s.len(),
{
    if s.len() > 0 && is_word_char(s[0]) {
        1 + word_len(s.drop_first())
    } else {
        0
    }
}

/// The length of the longest prefix of `s` made of digits.
pub open spec fn digits_len(s: Seq<char>) -> nat
    decreases s.len(),
{
    if s.len() > 0 && is_digit(s[0]) {
        1 + digits_len(s.drop_first())
    } else {
        0
    }
}

/// The length of what is left of a comment in `s`: up to and with the first newline, or all of
/// `s` where it holds none.
pub open spec fn comment_len(s: Seq<char>) -> nat
    decreases s.len(),
{
    if s.len() == 0 {
        0
    } else if s[0] == '\n' {
        1
    } else {
        1 + comment_len(s.drop_first())
    }
}

/// The token that a word stands for.
pub open spec fn word_token(text: Seq<char>) -> TokenView {
    if text == "let"@ || text == "fn"@ {
        TokenView::Keyword(text)
    } else if text == "true"@ {
        TokenView::Boolean(true)
    } else if text == "false"@ {
        TokenView::Boolean(false)
    } else {
        TokenView::Identifier(text)
    }
}

/// `first` followed by the tokens of `rest`, or the failure of `rest`.
pub open spec fn followed_by(first: Seq<TokenView>, rest: Result<Seq<TokenView>, Seq<char>>)
    -> Result<Seq<TokenView>, Seq<char>> {
    match rest {
        Ok(tokens) => Ok(first + tokens),
        Err(unread) => Err(unread),
    }
}

/// A run at the front of a text is no longer than the text.
pub proof fn lemma_run_bounds(s: Seq<char>)
    ensures
        word_len(s) <= s.len(),
        digits_len(s) <= s.len(),
        comment_len(s) <= s.len(),
    decreases s.len(),
{
    if s.len() > 0 {
        lemma_run_bounds(s.drop_first());
    }
}

/// The tokens of `s`, or, where `s` holds a character that begins no token, what is left of
/// `s` from that character on.
pub open spec fn scan(s: Seq<char>) -> Result<Seq<TokenView>, Seq<char>>
    decreases s.len(),
    via scan_decreases
{
    if s.len() == 0 {
        Ok(Seq::empty())
    } else if is_whitespace(s[0]) {
        scan(s.skip(1))
    } else if s[0] == '/' && s.len() > 1 && s[1] == '/' {
        scan(s.skip(2 + comment_len(s.skip(2)) as int))
    } else if is_word_start(s[0]) {
        followed_by(seq![word_token(s.take(word_len(s) as int))], scan(s.skip(word_len(s) as int)))
    } else if is_digit(s[0]) {
        followed_by(
            seq![TokenView::Number(s.take(digits_len(s) as int))],
            scan(s.skip(digits_len(s) as int)),
        )
    } else if is_operator(s[0]) {
        followed_by(seq![TokenView::Operator(seq![s[0]])], scan(s.skip(1)))
    } else if s[0] == '=' {
        followed_by(seq![TokenView::Assignment], scan(s.skip(1)))
    } else if is_special(s[0]) {
        followed_by(seq![TokenView::SpecialCharacter(s[0])], scan(s.skip(1)))
    } else {
        Err(s)
    }
}

#[via_fn]
proof fn scan_decreases(s: Seq<char>) {
    lemma_run_bounds(s);
    if s.len() > 1 {
        lemma_run_bounds(s.skip(2));
    }
}

/// The number of newlines in `s`.
pub open spec fn newlines(s: Seq<char>) -> nat
    decreases s.len(),
{
    if s.len() == 0 {
        0
    } else {
        newlines(s.drop_last()) + if s.last() == '\n' {
            1nat
        } else {
            0nat
        }
    }
}

/// The message for a character that begins no token.
pub open spec fn unexpected_character(c: char) -> Seq<char> {
    "Unexpected character: '"@.push(c).push('\'')
}

/// What `tokenize` returns for the source text `s`: its tokens, or the error for the first
/// character that begins no token, with the line and the byte offset of that character.
pub open spec fn tokenize_spec(s: Seq<char>) -> Result<Seq<TokenView>, ErrorView> {
    match scan(s) {
        Ok(tokens) => Ok(tokens),
        Err(unread) => Err(
            ErrorView::Lexer {
                message: unexpected_character(unread[0]),
                line: 1 + newlines(s.take(s.len() - unread.len())),
                character: utf8_len(s.take(s.len() - unread.len())),
            },
        ),
    }
}

fn whitespace(c: char) -> (b: bool)
    ensures
        b == is_whitespace(c),
{
    ('\u{9}' <= c && c <= '\u{d}') || c == ' ' || c == '\u{85}' || c == '\u{a0}' || c
        == '\u{1680}' || ('\u{2000}' <= c && c <= '\u{200a}') || c == '\u{2028}' || c
        == '\u{2029}' || c == '\u{202f}' || c == '\u{205f}' || c == '\u{3000}'
}

fn digit(c: char) -> (b: bool)
    ensures
        b == is_digit(c),
{
    '0' <= c && c <= '9'
}

fn word_start(c: char) -> (b: bool)
    ensures
        b == is_word_start(c),
{
    ('a' <= c && c <= 'z') || ('A' <= c && c <= 'Z') || c == '_'
}

/// The token for the word `text`.
fn word(text: String) -> (token: Token)
    ensures
        token@ == word_token(text@),
{
    if same_text(text.as_str(), "let") || same_text(text.as_str(), "fn") {
        Token::Keyword(text)
    } else if same_text(text.as_str(), "true") {
        Token::Boolean(true)
    } else if same_text(text.as_str(), "false") {
        Token::Boolean(false)
    } else {
        Token::Identifier(text)
    }
}

/// The number of newlines in `chars[..at]`.
fn count_newlines(chars: &Vec<char>, at: usize) -> (count: usize)
    requires
        at <= chars.len(),
    ensures
        count == newlines(chars@.take(at as int)),
        count <= at,
{
    let mut count: usize = 0;
    let mut i: usize = 0;
    assert(chars@.take(0) =~= Seq::<char>::empty());
    while i < at
        invariant
            i <= at <= chars.len(),
            count <= i,
            count == newlines(chars@.take(i as int)),
        decreases at - i,
    {
        assert(chars@.take(i + 1).drop_last() =~= chars@.take(i as int));
        if chars[i] == '\n' {
            count = count + 1;
        }
        i = i + 1;
    }
    count
}

/// The error for the character at index `at`, which begins no token.
fn unexpected(input: &str, chars: &Vec<char>, at: usize) -> (error: MovaError)
    requires
        chars@ == input@,
        at < chars.len(),
    ensures
        error@ == (ErrorView::Lexer {
            message: unexpected_character(chars@[at as int]),
            line: 1 + newlines(chars@.take(at as int)),
            character: utf8_len(chars@.take(at as int)),
        }),
{
    let mut message = String::from_str("Unexpected character: '");
    push_char(&mut message, chars[at]);
    push_char(&mut message, '\'');
    let line = count_newlines(chars, at) + 1;
    let character = byte_offset(input, at);
    MovaError::Lexer { message, position: Position { line, character } }
}

/// Splits a source text into its tokens.
///
/// Whitespace and `//` comments separate tokens and are dropped. The first character that
/// begins no token ends the scan with a lexer error that names it and its place.
pub fn tokenize(input: &str) -> (result: Result<Vec<Token>, MovaError>)
    ensures
        match result {
            Ok(tokens) => tokenize_spec(input@) == Ok::<Seq<TokenView>, ErrorView>(
                token_views(tokens@),
            ),
            Err(error) => tokenize_spec(input@) == Err::<Seq<TokenView>, ErrorView>(error@),
        },
{
    let chars = chars_of(input);
    let n = chars.len();
    let ghost s = input@;
    let mut tokens: Vec<Token> = Vec::new();
    let mut i: usize = 0;
    assert(s.skip(0) =~= s);
    assert(token_views(tokens@) =~= Seq::<TokenView>::empty());
    assert(followed_by(Seq::<TokenView>::empty(), scan(s)) == scan(s)) by {
        match scan(s) {
            Ok(all) => {
                assert(Seq::<TokenView>::empty() + all =~= all);
            },
            Err(_) => {},
        }
    }
    while i < n
        invariant
            i <= n,
            n == chars.len(),
            chars@ == s,
            s == input@,
            scan(s) == followed_by(token_views(tokens@), scan(s.skip(i as int))),
        decreases n - i,
    {
        let c = chars[i];
        let ghost rest = s.skip(i as int);
        assert(rest.len() == n - i);
        assert(rest[0] == c);
        assert(rest.skip(1) =~= s.skip(i + 1));
        if whitespace(c) {
            i = i + 1;
        } else if c == '/' && i + 1 < n && chars[i + 1] == '/' {
            assert(rest[1] == chars@[i + 1]);
            let mut j: usize = i + 2;
            let mut open = true;
            assert(rest.skip(2) =~= s.skip(i + 2));
            while open && j < n
                invariant
                    i + 2 <= j <= n,
                    n == chars.len(),
                    chars@ == s,
                    open ==> comment_len(s.skip(i + 2)) == (j - (i + 2)) + comment_len(
                        s.skip(j as int),
                    ),
                    !open ==> comment_len(s.skip(i + 2)) == j - (i + 2),
                decreases n - j, open as int,
            {
                assert(s.skip(j as int)[0] == chars@[j as int]);
                assert(s.skip(j as int).drop_first() =~= s.skip(j + 1));
                if chars[j] == '\n' {
                    open = false;
                }
                j = j + 1;
            }
            assert(comment_len(s.skip(i + 2)) == j - (i + 2));
            assert(rest.skip(2 + comment_len(rest.skip(2)) as int) =~= s.skip(j as int));
            i = j;
        } else if word_start(c) {
            let mut j: usize = i + 1;
            assert(rest.drop_first() =~= s.skip(i + 1));
            while j < n && (word_start(chars[j]) || digit(chars[j]))
                invariant
                    i + 1 <= j <= n,
                    n == chars.len(),
                    chars@ == s,
                    word_len(s.skip(i as int)) == (j - i) + word_len(s.skip(j as int)),
                decreases n - j,
            {
                assert(s.skip(j as int)[0] == chars@[j as int]);
                assert(s.skip(j as int).drop_first() =~= s.skip(j + 1));
                j = j + 1;
            }
            assert(word_len(s.skip(j as int)) == 0) by {
                if j < n {
                    assert(s.skip(j as int)[0] == chars@[j as int]);
                }
            }
            let text = text_of(&chars, i, j);
            assert(rest.take(word_len(rest) as int) =~= s.subrange(i as int, j as int));
            assert(rest.skip(word_len(rest) as int) =~= s.skip(j as int));
            let token = word(text);
            proof {
                lemma_push_token(tokens@, token, scan(s.skip(j as int)));
            }
            tokens.push(token);
            i = j;
        } else if digit(c) {
            let mut j: usize = i + 1;
            assert(rest.drop_first() =~= s.skip(i + 1));
            while j < n && digit(chars[j])
                invariant
                    i + 1 <= j <= n,
                    n == chars.len(),
                    chars@ == s,
                    digits_len(s.skip(i as int)) == (j - i) + digits_len(s.skip(j as int)),
                decreases n - j,
            {
                assert(s.skip(j as int)[0] == chars@[j as int]);
                assert(s.skip(j as int).drop_first() =~= s.skip(j + 1));
                j = j + 1;
            }
            assert(digits_len(s.skip(j as int)) == 0) by {
                if j < n {
                    assert(s.skip(j as int)[0] == chars@[j as int]);
                }
            }
            let text = text_of(&chars, i, j);
            assert(rest.take(digits_len(rest) as int) =~= s.subrange(i as int, j as int));
            assert(rest.skip(digits_len(rest) as int) =~= s.skip(j as int));
            let token = Token::Number(text);
            proof {
                lemma_push_token(tokens@, token, scan(s.skip(j as int)));
            }
            tokens.push(token);
            i = j;
        } else if c == '+' || c == '-' || c == '*' || c == '/' || c == '(' || c == ')' || c
            == '&' {
            let mut text = String::new();
            push_char(&mut text, c);
            assert(text@ =~= seq![c]);
            let token = Token::Operator(text);
            proof {
                lemma_push_token(tokens@, token, scan(s.skip(i + 1)));
            }
            tokens.push(token);
            i = i + 1;
        } else if c == '=' {
            let token = Token::Assignment;
            proof {
                lemma_push_token(tokens@, token, scan(s.skip(i + 1)));
            }
            tokens.push(token);
            i = i + 1;
        } else if c == '{' || c == '}' || c == ',' {
            let token = Token::SpecialCharacter(c);
            proof {
                lemma_push_token(tokens@, token, scan(s.skip(i + 1)));
            }
            tokens.push(token);
            i = i + 1;
        } else {
            assert(scan(rest) == Err::<Seq<TokenView>, Seq<char>>(rest));
            assert(s.take(s.len() - rest.len()) =~= s.take(i as int));
            return Err(unexpected(input, &chars, i));
        }
    }
    assert(s.skip(n as int) =~= Seq::<char>::empty());
    assert(token_views(tokens@) + Seq::<TokenView>::empty() =~= token_views(tokens@));
    Ok(tokens)
}

proof fn lemma_push_token(tokens: Seq<Token>, token: Token, rest: Result<Seq<TokenView>, Seq<char>>)
    ensures
        followed_by(token_views(tokens), followed_by(seq![token@], rest)) == followed_by(
            token_views(tokens.push(token)),
            rest,
        ),
{
    assert(token_views(tokens.push(token)) =~= token_views(tokens).push(token@));
    match rest {
        Ok(more) => {
            assert(token_views(tokens) + (seq![token@] + more) =~= token_views(tokens).push(
                token@,
            ) + more);
        },
        Err(_) => {},
    }
}

} // verus!
