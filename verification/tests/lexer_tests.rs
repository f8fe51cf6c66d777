use fdl::lexer::{tokenize, Lexer, Token, TokenInfo, TokenKind};

#[test]
fn lexer_last_token_returns_empty_string() {
    let mut lexer = Lexer::new("");
    assert!(lexer.next().is_none());
    assert!(lexer.next().is_none());
    assert!(lexer.next().is_none());
}

#[test]
fn whitespace_is_ignored() {
    let mut lexer = Lexer::new(" \t\n ");
    assert!(lexer.next().is_none());
}

#[test]
fn lexer_next_token_returns_char() {
    let mut lexer = Lexer::new("{");
    assert_eq!(lexer.next().unwrap().0, Token::new(TokenKind::Symbol, "{"));
}

#[test]
fn alphabetics_are_tokenized_into_words() {
    let mut lexer = Lexer::new("hello world");
    assert_eq!(
        lexer.next().unwrap().0,
        Token::new(TokenKind::Word, "hello")
    );
}

#[test]
fn alphabetics_are_tokenized_into_words_including_trailing_numbers() {
    let mut lexer = Lexer::new("hello123 world");
    assert_eq!(
        lexer.next().unwrap().0,
        Token::new(TokenKind::Word, "hello123")
    );
}

#[test]
fn alphabetics_are_tokenized_into_words_including_underscores() {
    let mut lexer = Lexer::new("hello_world");
    assert_eq!(
        lexer.next().unwrap().0,
        Token::new(TokenKind::Word, "hello_world")
    );
}

#[test]
fn numerics_are_tokenized_into_numbers() {
    let mut lexer = Lexer::new("123 world");
    assert_eq!(
        lexer.next().unwrap().0,
        Token::new(TokenKind::Number, "123")
    );
}

#[test]
fn numerics_are_tokenized_into_numbers_ignore_trailing_alphabetics() {
    let mut lexer = Lexer::new("123world");
    assert_eq!(
        lexer.next().unwrap().0,
        Token::new(TokenKind::Number, "123")
    );
}

#[test]
fn alphabetics_after_numerics_are_separate_word_tokens() {
    let mut lexer = Lexer::new("123world");
    lexer.next().unwrap().0;
    assert_eq!(
        lexer.next().unwrap().0,
        Token::new(TokenKind::Word, "world")
    );
}

#[test]
fn numerics_include_decimals() {
    let mut lexer = Lexer::new("123.11");
    assert_eq!(
        lexer.next().unwrap().0,
        Token::new(TokenKind::Number, "123.11")
    );
}

#[test]
fn numerics_ignore_decimals_not_followed_by_numeric() {
    let mut lexer = Lexer::new("123..11");
    assert_eq!(
        lexer.next().unwrap().0,
        Token::new(TokenKind::Number, "123")
    );
}

#[test]
fn numerics_with_trailing_decimals_are_separate_tokens() {
    let mut lexer = Lexer::new("123.");
    assert_eq!(
        lexer.next().unwrap().0,
        Token::new(TokenKind::Number, "123")
    );
    assert_eq!(lexer.next().unwrap().0, Token::new(TokenKind::Symbol, "."));
}

#[test]
fn quotes_consume_as_one_token_until_closing_quote() {
    let mut lexer = Lexer::new("\"Hello World, 12 12.2!\"");
    assert_eq!(
        lexer.next().unwrap().0,
        Token::new(TokenKind::String, "\"Hello World, 12 12.2!\"")
    );
}

#[test]
fn escaped_quotes_dont_end_string() {
    let mut lexer = Lexer::new("\"Hello \\\" World\"");
    assert_eq!(
        lexer.next().unwrap().0,
        Token::new(TokenKind::String, "\"Hello \\\" World\"")
    );
}

#[test]
fn strings_include_newlines() {
    let mut lexer = Lexer::new("\"Hello \n World\"");
    assert_eq!(
        lexer.next().unwrap().0,
        Token::new(TokenKind::String, "\"Hello \n World\"")
    );
}

#[test]
fn tokens_are_parsed_with_column_index() {
    let mut lexer = Lexer::new("hello world");
    assert_eq!(lexer.next().unwrap().1, TokenInfo::new(0, 0));
    assert_eq!(lexer.next().unwrap().1, TokenInfo::new(0, 6));
}

#[test]
fn tokens_are_parsed_with_line_index_and_column_relative_to_line() {
    let mut lexer = Lexer::new("hello\nworld!\nline 3");
    assert_eq!(
        lexer.next().unwrap(),
        (Token::new(TokenKind::Word, "hello"), TokenInfo::new(0, 0))
    );
    assert_eq!(
        lexer.next().unwrap(),
        (Token::new(TokenKind::Word, "world"), TokenInfo::new(1, 0))
    );
    assert_eq!(
        lexer.next().unwrap(),
        (Token::new(TokenKind::Symbol, "!"), TokenInfo::new(1, 5))
    );
    assert_eq!(
        lexer.next().unwrap(),
        (Token::new(TokenKind::Word, "line"), TokenInfo::new(2, 0))
    );
    assert_eq!(
        lexer.next().unwrap(),
        (Token::new(TokenKind::Number, "3"), TokenInfo::new(2, 5))
    );
}

fn literals_of(source: &str) -> Vec<String> {
    let mut found = Vec::new();
    for (token, _) in tokenize(source) {
        found.push(token.literal);
    }
    found
}

fn kinds_of(source: &str) -> Vec<TokenKind> {
    let mut found = Vec::new();
    for (token, _) in tokenize(source) {
        found.push(token.kind);
    }
    found
}

fn strip_whitespace(text: &str) -> String {
    let mut kept = String::new();
    for c in text.chars() {
        if !c.is_whitespace() {
            kept.push(c);
        }
    }
    kept
}

#[test]
fn tokenize_yields_every_token_in_order() {
    assert_eq!(
        literals_of("thing \"A\" { int x = 12 }"),
        vec!["thing", "\"A\"", "{", "int", "x", "=", "12", "}"]
    );
    assert_eq!(
        kinds_of("thing \"A\" { int x = 12 }"),
        vec![
            TokenKind::Word,
            TokenKind::String,
            TokenKind::Symbol,
            TokenKind::Word,
            TokenKind::Word,
            TokenKind::Symbol,
            TokenKind::Number,
            TokenKind::Symbol
        ]
    );
}

#[test]
fn tokenize_of_empty_source_is_empty() {
    assert!(tokenize("").is_empty());
    assert!(tokenize(" \n\t ").is_empty());
}

#[test]
fn joined_literals_are_the_source_without_whitespace() {
    let sources = [
        "",
        "   ",
        "hello world",
        "thing \"My Thing\" {\n  int x = 12\n  float f = 1.5\n}\n",
        "123..11 a_b \"x \\\" y\" !?",
        "\"never closed",
        "a\0b \0",
        "1.2.3..4",
        "caf\u{e9} \u{661}\u{662} x\u{a0}y",
    ];
    for source in sources {
        let joined: String = literals_of(source).concat();
        assert_eq!(strip_whitespace(&joined), strip_whitespace(source));
    }
}

#[test]
fn second_point_of_a_number_is_a_symbol() {
    assert_eq!(literals_of("123..11"), vec!["123", ".", ".", "11"]);
    assert_eq!(
        kinds_of("123..11"),
        vec![
            TokenKind::Number,
            TokenKind::Symbol,
            TokenKind::Symbol,
            TokenKind::Number
        ]
    );
    assert_eq!(literals_of("1.2.3"), vec!["1.2", ".", "3"]);
    assert_eq!(
        kinds_of("1.2.3"),
        vec![TokenKind::Number, TokenKind::Symbol, TokenKind::Number]
    );
    assert_eq!(literals_of("1.2.3.4"), vec!["1.2", ".", "3.4"]);
    assert_eq!(literals_of("12.a"), vec!["12", ".", "a"]);
    assert_eq!(literals_of("7.5x"), vec!["7.5", "x"]);
}

#[test]
fn unterminated_string_runs_to_the_end_of_input() {
    let mut lexer = Lexer::new("a \"open { }\n x");
    assert_eq!(lexer.next().unwrap().0, Token::new(TokenKind::Word, "a"));
    assert_eq!(
        lexer.next().unwrap(),
        (
            Token::new(TokenKind::String, "\"open { }\n x"),
            TokenInfo::new(0, 2)
        )
    );
    assert!(lexer.next().is_none());
}

#[test]
fn string_of_a_lone_quote_is_that_quote() {
    assert_eq!(literals_of("\""), vec!["\""]);
    assert_eq!(literals_of("\"\""), vec!["\"\""]);
    assert_eq!(literals_of("\"\"\"\""), vec!["\"\"", "\"\""]);
}

#[test]
fn backslash_before_a_quote_keeps_the_string_open() {
    assert_eq!(literals_of("\"a\\\" b\" c"), vec!["\"a\\\" b\"", "c"]);
    assert_eq!(literals_of("\"a\\\\\" b"), vec!["\"a\\\\\" b"]);
}

#[test]
fn line_breaks_inside_a_string_count_as_lines() {
    let mut lexer = Lexer::new("\"a\nb\" x\ny");
    assert_eq!(lexer.next().unwrap().1, TokenInfo::new(0, 0));
    assert_eq!(lexer.next().unwrap().1, TokenInfo::new(1, 3));
    assert_eq!(lexer.next().unwrap().1, TokenInfo::new(2, 0));
    let mut lexer = Lexer::new("\"\n\n\"\n \"\n");
    assert_eq!(lexer.next().unwrap().1, TokenInfo::new(0, 0));
    assert_eq!(lexer.next().unwrap().1, TokenInfo::new(3, 1));
    assert!(lexer.next().is_none());
}

#[test]
fn null_character_is_a_symbol() {
    let mut lexer = Lexer::new("a \0 b");
    assert_eq!(lexer.next().unwrap().0, Token::new(TokenKind::Word, "a"));
    assert_eq!(
        lexer.next().unwrap(),
        (Token::new(TokenKind::Symbol, "\0"), TokenInfo::new(0, 2))
    );
    assert_eq!(lexer.next().unwrap().0, Token::new(TokenKind::Word, "b"));
    assert!(lexer.next().is_none());
    assert!(lexer.next().is_none());
    assert_eq!(literals_of("\0"), vec!["\0"]);
    assert_eq!(literals_of("\"a\0b\""), vec!["\"a\0b\""]);
}

#[test]
fn words_and_numbers_go_on_over_letters_and_digits_of_any_script() {
    assert_eq!(literals_of("caf\u{e9}9 x"), vec!["caf\u{e9}9", "x"]);
    assert_eq!(literals_of("1\u{662}3 x"), vec!["1\u{662}3", "x"]);
    assert_eq!(
        kinds_of("\u{e9}t\u{e9}"),
        vec![TokenKind::Symbol, TokenKind::Word]
    );
}

#[test]
fn peek_looks_without_taking() {
    let mut lexer = Lexer::new("ab");
    assert_eq!(lexer.peek(), 'a');
    assert_eq!(lexer.peek(), 'a');
    assert_eq!(lexer.peek_offset(1), 'b');
    assert_eq!(lexer.peek_offset(2), '\0');
    assert_eq!(lexer.peek_offset(-1), '\0');
    assert_eq!(lexer.peek_offset(isize::MAX), '\0');
    assert_eq!(lexer.peek_offset(isize::MIN), '\0');
    lexer.next();
    assert_eq!(lexer.peek(), '\0');
    assert_eq!(lexer.peek_offset(-1), 'b');
    assert_eq!(lexer.peek_offset(-2), 'a');
    assert_eq!(lexer.peek_offset(-3), '\0');
}

#[test]
fn columns_count_characters_not_bytes() {
    let mut lexer = Lexer::new("\u{e9}\u{e9} x");
    assert_eq!(lexer.next().unwrap().1, TokenInfo::new(0, 0));
    assert_eq!(lexer.next().unwrap().1, TokenInfo::new(0, 1));
    assert_eq!(lexer.next().unwrap().1, TokenInfo::new(0, 3));
}
