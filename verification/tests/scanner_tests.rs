use fdl::scanner::Lexer;

#[test]
fn lib_last_token_returns_empty_string() {
    let mut lexer = Lexer::new("");
    assert_eq!(lexer.next(), "");
    assert_eq!(lexer.next(), "");
}

#[test]
fn lib_next_token_returns_char() {
    let mut lexer = Lexer::new("{");
    assert_eq!(lexer.next(), "{");
}

#[test]
fn chars_are_tokenized_into_words() {
    let mut lexer = Lexer::new("hello world");
    assert_eq!(lexer.next(), "hello");
}

#[test]
fn chars_are_tokenized_into_words_including_trailing_numbers() {
    let mut lexer = Lexer::new("hello123 world");
    assert_eq!(lexer.next(), "hello123");
}

#[test]
fn scanner_hands_out_whitespace_and_digits_one_by_one() {
    let mut lexer = Lexer::new("ab 12c");
    assert_eq!(lexer.peek(), 'a');
    assert_eq!(lexer.next(), "ab");
    assert_eq!(lexer.peek(), ' ');
    assert_eq!(lexer.next(), " ");
    assert_eq!(lexer.next(), "1");
    assert_eq!(lexer.next(), "2");
    assert_eq!(lexer.next(), "c");
    assert_eq!(lexer.peek(), '\0');
    assert_eq!(lexer.next(), "");
}

#[test]
fn scanner_stops_before_a_null_character() {
    let mut lexer = Lexer::new("a\0b");
    assert_eq!(lexer.next(), "a");
    assert_eq!(lexer.next(), "");
    assert_eq!(lexer.next(), "");
}
