//! Writing tokens back as source text, and the proof that the lexer reads them back.

use vstd::prelude::*;
use crate::lexer::{
    comment_len, digits_len, followed_by, is_digit, is_operator, is_special, is_whitespace,
    is_word_char, is_word_start, lemma_run_bounds, scan, token_views, tokenize_spec, word_len,
    word_token, Token, TokenView,
};
use crate::error::ErrorView;
use crate::text::push_char;

verus! {

/// The source text of one token.
pub open spec fn token_text(token: TokenView) -> Seq<char> {
    match token {
        TokenView::Keyword(text) => text,
        TokenView::Identifier(text) => text,
        TokenView::Number(text) => text,
        TokenView::Boolean(value) => if value {
            "true"@
        } else {
            "false"@
        },
        TokenView::Operator(text) => text,
        TokenView::Assignment => seq!['='],
        TokenView::SpecialCharacter(c) => seq![c],
    }
}

/// The source text of a sequence of tokens: their texts, with one space between neighbours.
pub open spec fn serialize_spec(tokens: Seq<TokenView>) -> Seq<char>
    decreases tokens.len(),
{
    if tokens.len() == 0 {
        Seq::empty()
    } else if tokens.len() == 1 {
        token_text(tokens[0])
    } else {
        token_text(tokens[0]) + seq![' '] + serialize_spec(tokens.drop_first())
    }
}

/// Whether every character of `text` may stand in a word.
pub open spec fn all_word_chars(text: Seq<char>) -> bool {
    forall|i: int| 0 <= i < text.len() ==> is_word_char(#[trigger] text[i])
}

/// Whether every character of `text` is a digit.
pub open spec fn all_digit_chars(text: Seq<char>) -> bool {
    forall|i: int| 0 <= i < text.len() ==> is_digit(#[trigger] text[i])
}

/// Whether `token` is one that the lexer yields: a keyword is `let` or `fn`, an identifier is
/// a word that is neither a keyword nor a boolean, a number is a run of digits, an operator
/// or a special character is one of those of the language.
pub open spec fn is_lexeme(token: TokenView) -> bool {
    match token {
        TokenView::Keyword(text) => text == "let"@ || text == "fn"@,
        TokenView::Identifier(text) => {
            &&& text.len() > 0
            &&& is_word_start(text[0])
            &&& all_word_chars(text)
            &&& word_token(text) == token
        },
        TokenView::Number(text) => text.len() > 0 && all_digit_chars(text),
        TokenView::Boolean(_) => true,
        TokenView::Operator(text) => text.len() == 1 && is_operator(text[0]),
        TokenView::Assignment => true,
        TokenView::SpecialCharacter(c) => is_special(c),
    }
}

/// Whether every token of `tokens` is one that the lexer yields.
pub open spec fn all_lexemes(tokens: Seq<TokenView>) -> bool {
    forall|i: int| 0 <= i < tokens.len() ==> is_lexeme(#[trigger] tokens[i])
}

proof fn lemma_keyword_texts()
    ensures
        "let"@ =~= seq!['l', 'e', 't'],
        "fn"@ =~= seq!['f', 'n'],
        "true"@ =~= seq!['t', 'r', 'u', 'e'],
        "false"@ =~= seq!['f', 'a', 'l', 's', 'e'],
{
    reveal_strlit("let");
    reveal_strlit("fn");
    reveal_strlit("true");
    reveal_strlit("false");
}

/// The word at the front of `s` is made of word characters.
proof fn lemma_word_prefix(s: Seq<char>)
    ensures
        word_len(s) <= s.len(),
        all_word_chars(s.take(word_len(s) as int)),
    decreases s.len(),
{
    lemma_run_bounds(s);
    if s.len() > 0 && is_word_char(s[0]) {
        lemma_word_prefix(s.drop_first());
        lemma_run_bounds(s.drop_first());
        let n = word_len(s) as int;
        assert forall|i: int| 0 <= i < n implies is_word_char(#[trigger] s.take(n)[i]) by {
            if i > 0 {
                assert(s.take(n)[i] == s.drop_first().take(n - 1)[i - 1]);
            }
        }
    }
}

/// The digits at the front of `s` are digits.
proof fn lemma_digits_prefix(s: Seq<char>)
    ensures
        digits_len(s) <= s.len(),
        all_digit_chars(s.take(digits_len(s) as int)),
    decreases s.len(),
{
    lemma_run_bounds(s);
    if s.len() > 0 && is_digit(s[0]) {
        lemma_digits_prefix(s.drop_first());
        lemma_run_bounds(s.drop_first());
        let n = digits_len(s) as int;
        assert forall|i: int| 0 <= i < n implies is_digit(#[trigger] s.take(n)[i]) by {
            if i > 0 {
                assert(s.take(n)[i] == s.drop_first().take(n - 1)[i - 1]);
            }
        }
    }
}

/// Every token that the lexer yields is a lexeme.
pub proof fn lemma_scan_yields_lexemes(s: Seq<char>)
    ensures
        match scan(s) {
            Ok(tokens) => all_lexemes(tokens),
            Err(_) => true,
        },
    decreases s.len(),
{
    lemma_run_bounds(s);
    if s.len() == 0 {
    } else if is_whitespace(s[0]) {
        lemma_scan_yields_lexemes(s.skip(1));
    } else if s[0] == '/' && s.len() > 1 && s[1] == '/' {
        lemma_run_bounds(s.skip(2));
        lemma_scan_yields_lexemes(s.skip(2 + comment_len(s.skip(2)) as int));
    } else {
        let (first, rest) = if is_word_start(s[0]) {
            (word_token(s.take(word_len(s) as int)), s.skip(word_len(s) as int))
        } else if is_digit(s[0]) {
            (TokenView::Number(s.take(digits_len(s) as int)), s.skip(digits_len(s) as int))
        } else if is_operator(s[0]) {
            (TokenView::Operator(seq![s[0]]), s.skip(1))
        } else if s[0] == '=' {
            (TokenView::Assignment, s.skip(1))
        } else {
            (TokenView::SpecialCharacter(s[0]), s.skip(1))
        };
        if is_word_start(s[0]) || is_digit(s[0]) || is_operator(s[0]) || s[0] == '=' || is_special(
            s[0],
        ) {
            lemma_word_prefix(s);
            lemma_digits_prefix(s);
            assert(is_lexeme(first));
            lemma_scan_yields_lexemes(rest);
            match scan(rest) {
                Ok(more) => {
                    assert(scan(s) == Ok::<Seq<TokenView>, Seq<char>>(seq![first] + more));
                    assert forall|i: int| 0 <= i < (seq![first] + more).len() implies is_lexeme(
                        #[trigger] (seq![first] + more)[i],
                    ) by {
                        if i > 0 {
                            assert((seq![first] + more)[i] == more[i - 1]);
                        }
                    }
                },
                Err(_) => {},
            }
        }
    }
}

/// A run of word characters that is followed by none is the word at the front.
proof fn lemma_word_len_of(text: Seq<char>, rest: Seq<char>)
    requires
        all_word_chars(text),
        rest.len() == 0 || !is_word_char(rest[0]),
    ensures
        word_len(text + rest) == text.len(),
    decreases text.len(),
{
    if text.len() == 0 {
        assert(text + rest =~= rest);
    } else {
        assert((text + rest)[0] == text[0]);
        assert((text + rest).drop_first() =~= text.drop_first() + rest);
        assert forall|i: int| 0 <= i < text.drop_first().len() implies is_word_char(
            #[trigger] text.drop_first()[i],
        ) by {
            assert(text.drop_first()[i] == text[i + 1]);
        }
        lemma_word_len_of(text.drop_first(), rest);
    }
}

/// A run of digits that is followed by none is the run of digits at the front.
proof fn lemma_digits_len_of(text: Seq<char>, rest: Seq<char>)
    requires
        all_digit_chars(text),
        rest.len() == 0 || !is_digit(rest[0]),
    ensures
        digits_len(text + rest) == text.len(),
    decreases text.len(),
{
    if text.len() == 0 {
        assert(text + rest =~= rest);
    } else {
        assert((text + rest)[0] == text[0]);
        assert((text + rest).drop_first() =~= text.drop_first() + rest);
        assert forall|i: int| 0 <= i < text.drop_first().len() implies is_digit(
            #[trigger] text.drop_first()[i],
        ) by {
            assert(text.drop_first()[i] == text[i + 1]);
        }
        lemma_digits_len_of(text.drop_first(), rest);
    }
}

/// The text of a lexeme, followed by nothing or by a space, is read back as that lexeme.
proof fn lemma_scan_lexeme(token: TokenView, rest: Seq<char>)
    requires
        is_lexeme(token),
        rest.len() == 0 || rest[0] == ' ',
    ensures
        scan(token_text(token) + rest) == followed_by(seq![token], scan(rest)),
{
    lemma_keyword_texts();
    let text = token_text(token);
    let s = text + rest;
    assert(text.len() > 0);
    assert(s[0] == text[0]);
    assert(s.skip(text.len() as int) =~= rest);
    assert(s.take(text.len() as int) =~= text);
    match token {
        TokenView::Keyword(_) | TokenView::Identifier(_) | TokenView::Boolean(_) => {
            assert(all_word_chars(text));
            assert(is_word_start(text[0]));
            lemma_word_len_of(text, rest);
            assert(word_token(text) == token);
        },
        TokenView::Number(_) => {
            assert(is_digit(text[0]));
            lemma_digits_len_of(text, rest);
        },
        TokenView::Operator(_) => {
            assert(text =~= seq![text[0]]);
            if s.len() > 1 {
                assert(s[1] == rest[0]);
            }
        },
        TokenView::Assignment => {},
        TokenView::SpecialCharacter(_) => {},
    }
}

/// The lexer reads the source text of lexemes back as those lexemes.
pub proof fn lemma_serialized_lexemes_scan_back(tokens: Seq<TokenView>)
    requires
        all_lexemes(tokens),
    ensures
        scan(serialize_spec(tokens)) == Ok::<Seq<TokenView>, Seq<char>>(tokens),
    decreases tokens.len(),
{
    if tokens.len() == 0 {
        assert(tokens =~= Seq::empty());
    } else if tokens.len() == 1 {
        lemma_scan_lexeme(tokens[0], Seq::empty());
        assert(token_text(tokens[0]) + Seq::<char>::empty() =~= token_text(tokens[0]));
        assert(seq![tokens[0]] + Seq::<TokenView>::empty() =~= tokens);
    } else {
        let others = tokens.drop_first();
        assert forall|i: int| 0 <= i < others.len() implies is_lexeme(#[trigger] others[i]) by {
            assert(others[i] == tokens[i + 1]);
        }
        lemma_serialized_lexemes_scan_back(others);
        let rest = seq![' '] + serialize_spec(others);
        assert(rest[0] == ' ');
        assert(rest.skip(1) =~= serialize_spec(others));
        assert(scan(rest) == scan(serialize_spec(others)));
        lemma_scan_lexeme(tokens[0], rest);
        assert(serialize_spec(tokens) =~= token_text(tokens[0]) + rest);
        assert(seq![tokens[0]] + others =~= tokens);
    }
}

/// Tokenizing a source text, writing the tokens back with one space between neighbours and
/// tokenizing that text yields the same tokens.
pub proof fn lemma_tokenize_round_trip(source: Seq<char>, tokens: Seq<TokenView>)
    requires
        tokenize_spec(source) == Ok::<Seq<TokenView>, ErrorView>(tokens),
    ensures
        tokenize_spec(serialize_spec(tokens)) == Ok::<Seq<TokenView>, ErrorView>(tokens),
{
    lemma_scan_yields_lexemes(source);
    lemma_serialized_lexemes_scan_back(tokens);
}

/// Appends the source text of `token` to `text`.
fn write_token(text: &mut String, token: &Token)
    ensures
        final(text)@ == old(text)@ + token_text(token@),
{
    match token {
        Token::Keyword(word) => text.append(word.as_str()),
        Token::Identifier(word) => text.append(word.as_str()),
        Token::Number(digits) => text.append(digits.as_str()),
        Token::Boolean(value) => if *value {
            text.append("true")
        } else {
            text.append("false")
        },
        Token::Operator(operator) => text.append(operator.as_str()),
        Token::Assignment => {
            push_char(text, '=');
            assert(text@ =~= old(text)@ + seq!['=']);
        },
        Token::SpecialCharacter(c) => {
            push_char(text, *c);
            assert(text@ =~= old(text)@ + seq![*c]);
        },
    }
}

/// Writes tokens back as source text, with one space between neighbours.
pub fn serialize(tokens: &Vec<Token>) -> (text: String)
    ensures
        text@ == serialize_spec(token_views(tokens@)),
{
    let mut text = String::new();
    let ghost views = token_views(tokens@);
    let mut i: usize = 0;
    assert(views.skip(0) =~= views);
    while i < tokens.len()
        invariant
            i <= tokens.len(),
            views == token_views(tokens@),
            serialize_spec(views) == text@ + serialize_spec(views.skip(i as int)),
        decreases tokens.len() - i,
    {
        let ghost before = text@;
        let ghost rest = views.skip(i as int);
        assert(rest[0] == tokens@[i as int]@);
        assert(rest.drop_first() =~= views.skip(i + 1));
        write_token(&mut text, &tokens[i]);
        if i + 1 < tokens.len() {
            push_char(&mut text, ' ');
            assert(text@ + serialize_spec(views.skip(i + 1)) =~= before + (token_text(rest[0])
                + seq![' '] + serialize_spec(rest.drop_first())));
        } else {
            assert(views.skip(i + 1) =~= Seq::empty());
            assert(text@ + serialize_spec(views.skip(i + 1)) =~= before + token_text(rest[0]));
        }
        i = i + 1;
    }
    assert(views.skip(i as int) =~= Seq::empty());
    assert(text@ + Seq::<char>::empty() =~= text@);
    text
}

} // verus!
