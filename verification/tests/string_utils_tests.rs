use fdl::string_utils::strip_quotes;

#[test]
fn strip_quotes_strips_quotes() {
    assert_eq!(strip_quotes("\"hello\""), "hello");
}

#[test]
fn unquoted_strings_remain_the_same() {
    assert_eq!(strip_quotes("hello"), "hello");
}

#[test]
fn strip_quotes_takes_one_quote_at_each_end() {
    assert_eq!(strip_quotes(""), "");
    assert_eq!(strip_quotes("\""), "");
    assert_eq!(strip_quotes("\"\""), "");
    assert_eq!(strip_quotes("\"\"\""), "\"");
    assert_eq!(strip_quotes("\"\"a\"\""), "\"a\"");
    assert_eq!(strip_quotes("\"open"), "open");
    assert_eq!(strip_quotes("close\""), "close");
    assert_eq!(strip_quotes("in\"side"), "in\"side");
    assert_eq!(strip_quotes("\"h\u{e9}llo w\u{f6}rld\""), "h\u{e9}llo w\u{f6}rld");
}
