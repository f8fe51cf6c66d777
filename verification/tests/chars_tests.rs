use fdl::lexer::{tokenize, TokenKind};

fn listed_whitespace(c: char) -> bool {
    matches!(
        c as u32,
        0x09..=0x0D
            | 0x20
            | 0x85
            | 0xA0
            | 0x1680
            | 0x2000..=0x200A
            | 0x2028
            | 0x2029
            | 0x202F
            | 0x205F
            | 0x3000
    )
}

#[test]
fn whitespace_is_the_listed_code_points() {
    let mut count = 0;
    for code in 0..=0x10FFFFu32 {
        if let Some(c) = char::from_u32(code) {
            assert_eq!(c.is_whitespace(), listed_whitespace(c), "{:?}", c);
            if listed_whitespace(c) {
                count += 1;
            }
        }
    }
    assert_eq!(count, 25);
}

#[test]
fn tokenizer_skips_the_listed_whitespace_and_nothing_else() {
    for code in 0..0x3100u32 {
        if let Some(c) = char::from_u32(code) {
            let found = tokenize(&c.to_string());
            assert_eq!(found.is_empty(), listed_whitespace(c), "{:?}", c);
        }
    }
}

#[test]
fn alphanumeric_ascii_is_letters_and_digits() {
    for code in 0..0x80u32 {
        let c = char::from_u32(code).unwrap();
        let letter = ('A'..='Z').contains(&c) || ('a'..='z').contains(&c);
        let digit = ('0'..='9').contains(&c);
        assert_eq!(c.is_alphanumeric(), letter || digit, "{:?}", c);
        assert_eq!(c.is_numeric(), digit, "{:?}", c);
    }
}

#[test]
fn words_and_numbers_go_on_over_ascii_as_stated() {
    for code in 0..0x80u32 {
        let c = char::from_u32(code).unwrap();
        let letter = ('A'..='Z').contains(&c) || ('a'..='z').contains(&c);
        let digit = ('0'..='9').contains(&c);
        let word = tokenize(&format!("a{}", c));
        assert_eq!(word[0].0.kind, TokenKind::Word);
        assert_eq!(
            word[0].0.literal.chars().count() == 2,
            letter || digit || c == '_',
            "{:?}",
            c
        );
        let number = tokenize(&format!("1{}", c));
        assert_eq!(number[0].0.kind, TokenKind::Number);
        assert_eq!(number[0].0.literal.chars().count() == 2, digit, "{:?}", c);
    }
}
