use mova::lexer::tokenize;
use mova::text::{
    byte_offset, chars_of, decimal_text, integer_text, quoted_list_text, quoted_text, read_number,
    reversed, same_text, text_of,
};

#[test]
fn whitespace_is_what_the_standard_library_calls_whitespace() {
    for code in 0..=0x10ffff_u32 {
        if let Some(c) = char::from_u32(code) {
            let skipped = tokenize(&c.to_string()) == Ok(vec![]);
            assert_eq!(skipped, c.is_whitespace(), "U+{code:04X}");
        }
    }
}

#[test]
fn a_numeral_is_read_as_the_standard_library_reads_it() {
    let numerals = [
        "", "0", "7", "007", "42", "-42", "+42", "-0", "+0", "+", "-", "--1", "+-1", "1-", "1 ",
        " 1", "1_000", "0x10", "2147483647", "2147483648", "-2147483648", "-2147483649",
        "+2147483647", "+2147483648", "4294967296", "00000000000002147483647",
        "99999999999999999999", "-99999999999999999999", "१२३", "12a", "a12", "1.5",
    ];
    for numeral in numerals {
        assert_eq!(read_number(numeral), numeral.parse::<i32>().ok(), "{numeral:?}");
    }
    assert_eq!(read_number("2147483647"), Some(i32::MAX));
    assert_eq!(read_number("-2147483648"), Some(i32::MIN));
    assert_eq!(read_number("12a"), None);
}

#[test]
fn a_number_is_written_in_decimal() {
    assert_eq!(decimal_text(0), "0");
    assert_eq!(decimal_text(7), "7");
    assert_eq!(decimal_text(10), "10");
    assert_eq!(decimal_text(1234567890), "1234567890");
    assert_eq!(decimal_text(usize::MAX), usize::MAX.to_string());
    for n in 0..2000 {
        assert_eq!(decimal_text(n), n.to_string());
    }
}

#[test]
fn texts_are_compared_by_their_characters() {
    assert!(same_text("", ""));
    assert!(same_text("let", "let"));
    assert!(!same_text("let", "le"));
    assert!(!same_text("let", "lit"));
    assert!(!same_text("é", "e"));
    assert!(same_text("é⊕", "é⊕"));
}

#[test]
fn a_text_is_split_into_its_characters() {
    assert_eq!(chars_of(""), Vec::<char>::new());
    assert_eq!(chars_of("aé⊕𝄞"), vec!['a', 'é', '⊕', '𝄞']);
    let chars = chars_of("hello");
    assert_eq!(text_of(&chars, 1, 4), "ell");
    assert_eq!(text_of(&chars, 2, 2), "");
    assert_eq!(text_of(&chars, 0, 5), "hello");
}

#[test]
fn a_byte_offset_counts_the_bytes_of_each_character() {
    let text = "aé⊕𝄞z";
    let chars = chars_of(text);
    let offsets: Vec<usize> = (0..=chars.len()).map(|at| byte_offset(text, at)).collect();
    assert_eq!(offsets, vec![0, 1, 3, 6, 10, 11]);
    let expected: Vec<usize> =
        text.char_indices().map(|(i, _)| i).chain(std::iter::once(text.len())).collect();
    assert_eq!(offsets, expected);
}

#[test]
fn an_integer_is_written_with_its_sign() {
    for n in [0, 1, -1, 42, -42, i32::MAX, i32::MIN, i32::MIN + 1] {
        assert_eq!(integer_text(n), n.to_string());
    }
}

#[test]
fn names_are_written_between_quotes() {
    assert_eq!(quoted_text("a"), "\"a\"");
    assert_eq!(quoted_text(""), "\"\"");
    assert_eq!(quoted_list_text(&vec![]), "");
    assert_eq!(quoted_list_text(&vec!["a".to_string()]), "\"a\"");
    assert_eq!(
        quoted_list_text(&vec!["a".to_string(), "b".to_string(), "c".to_string()]),
        "\"a\", \"b\", \"c\""
    );
}

#[test]
fn a_vector_is_turned_round() {
    assert_eq!(reversed(vec![1, 2, 3]), vec![3, 2, 1]);
    assert_eq!(reversed(Vec::<u8>::new()), Vec::<u8>::new());
}
