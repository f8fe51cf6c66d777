//! The tokenizer: from source text to tokens, each with its position.

use crate::chars::{
    ascii_digit, ascii_letter, is_ascii_digit, is_ascii_letter, alphanumeric,
    numeric, whitespace,
};
use crate::text::{chars_of, string_of};
use vstd::prelude::*;

verus! {

/// The kinds of token.
#[derive(PartialEq, Eq, Structural, Clone, Copy, Debug)]
pub enum TokenKind {
    /// Text in double quotes, quotes included.
    String,
    /// Digits, with at most one point among them.
    Number,
    /// A letter, then letters, digits and underscores.
    Word,
    /// Any other single character.
    Symbol,
}

/// What a token is: the model of [`Token`].
pub struct TokenView {
    pub kind: TokenKind,
    pub literal: Seq<char>,
}

/// A token: its kind, and its text as it stands in the source.
#[derive(PartialEq, Debug)]
pub struct Token {
    pub kind: TokenKind,
    pub literal: String,
}

/// Where a token starts: the line, and the column within the line, both
/// counted from zero.
#[derive(PartialEq, Eq, Structural, Clone, Copy, Debug)]
pub struct TokenInfo {
    pub line: usize,
    pub col: usize,
}

/// A token with its position, as a token stream hands it out.
pub type Lexeme = (TokenView, TokenInfo);

impl Token {
    /// The token with its text as a sequence of characters.
    pub open spec fn view(&self) -> TokenView {
        TokenView { kind: self.kind, literal: self.literal@ }
    }

    /// A token of `kind` with the text `literal`.
    pub fn new(kind: TokenKind, literal: &str) -> (token: Token)
        ensures
            token@ == (TokenView { kind, literal: literal@ }),
    {
        Token { kind, literal: String::from_str(literal) }
    }
}

impl TokenInfo {
    /// The position at `line` and `col`.
    pub fn new(line: usize, col: usize) -> (info: TokenInfo)
        ensures
            info == (TokenInfo { line, col }),
    {
        TokenInfo { line, col }
    }
}

/// The character at `i`, or the null character where the source has none.
pub open spec fn peek_at(s: Seq<char>, i: int) -> char {
    if 0 <= i < s.len() {
        s[i]
    } else {
        '\0'
    }
}

/// The line of the character at `i`: the number of line breaks before it.
pub open spec fn line_of(s: Seq<char>, i: int) -> int
    decreases i,
{
    if i <= 0 {
        0
    } else if s[i - 1] == '\n' {
        line_of(s, i - 1) + 1
    } else {
        line_of(s, i - 1)
    }
}

/// Where the line of the character at `i` starts: behind the last line break
/// before it, or at the start of the source.
pub open spec fn line_start(s: Seq<char>, i: int) -> int
    decreases i,
{
    if i <= 0 {
        0
    } else if s[i - 1] == '\n' {
        i
    } else {
        line_start(s, i - 1)
    }
}

/// The position of the character at `i`: its line, and its column within the
/// line, both counted from zero.
pub open spec fn position(s: Seq<char>, i: int) -> TokenInfo {
    TokenInfo { line: line_of(s, i) as usize, col: (i - line_start(s, i)) as usize }
}

/// Where the whitespace ends that starts at `i`.
pub open spec fn after_whitespace(s: Seq<char>, i: int) -> int
    decreases s.len() - i,
{
    if 0 <= i < s.len() && whitespace(s[i]) {
        after_whitespace(s, i + 1)
    } else {
        i
    }
}

/// Where the run of numeric characters ends that goes on at `i`.
pub open spec fn numeric_end(s: Seq<char>, i: int) -> int
    decreases s.len() - i,
{
    if 0 <= i < s.len() && numeric(s[i]) {
        numeric_end(s, i + 1)
    } else {
        i
    }
}

/// Whether a point with digits behind it stands at `i`: a point that a numeric
/// character follows.
pub open spec fn fraction_at(s: Seq<char>, i: int) -> bool {
    0 <= i && i + 1 < s.len() && s[i] == '.' && numeric(s[i + 1])
}

/// Where the number ends that goes on at `i`: behind its numeric characters,
/// and behind one point with the numeric characters that follow it, where
/// there is such a point. A second point is no part of the number.
pub open spec fn number_end(s: Seq<char>, i: int) -> int {
    let whole = numeric_end(s, i);
    if fraction_at(s, whole) {
        numeric_end(s, whole + 1)
    } else {
        whole
    }
}

/// Whether a word goes on with the character at `i`: with an alphanumeric
/// character or an underscore.
pub open spec fn word_part(s: Seq<char>, i: int) -> bool {
    0 <= i < s.len() && (alphanumeric(s[i]) || s[i] == '_')
}

/// Where the word ends that goes on at `i`.
pub open spec fn word_end(s: Seq<char>, i: int) -> int
    decreases s.len() - i,
{
    if word_part(s, i) {
        word_end(s, i + 1)
    } else {
        i
    }
}

/// Whether the character at `i` closes a string: a double quote that no
/// backslash stands directly before.
pub open spec fn closing_quote(s: Seq<char>, i: int) -> bool {
    0 < i < s.len() && s[i] == '"' && s[i - 1] != '\\'
}

/// Where the string ends that goes on at `i`: behind its closing quote, or at
/// the end of the source where none closes it.
pub open spec fn string_end(s: Seq<char>, i: int) -> int
    decreases s.len() - i,
{
    if i >= s.len() {
        s.len() as int
    } else if closing_quote(s, i) {
        i + 1
    } else {
        string_end(s, i + 1)
    }
}

/// The kind of the token that starts with `first`.
pub open spec fn kind_of(first: char) -> TokenKind {
    if ascii_digit(first) {
        TokenKind::Number
    } else if ascii_letter(first) {
        TokenKind::Word
    } else if first == '"' {
        TokenKind::String
    } else {
        TokenKind::Symbol
    }
}

/// Where the token ends that starts at `start`.
pub open spec fn token_end(s: Seq<char>, start: int) -> int {
    match kind_of(s[start]) {
        TokenKind::Number => number_end(s, start + 1),
        TokenKind::Word => word_end(s, start + 1),
        TokenKind::String => string_end(s, start + 1),
        TokenKind::Symbol => start + 1,
    }
}

/// The next token from `i` on, its position, and the place behind it; or none
/// where only whitespace is left.
///
/// The token starts at the first character behind the whitespace. A digit
/// starts a number, an ASCII letter a word, a double quote a string, and any
/// other character is a symbol by itself. The token is the text from its first
/// character to its end, and its position is that of its first character.
pub open spec fn next_token(s: Seq<char>, i: int) -> Option<(TokenView, TokenInfo, int)> {
    let start = after_whitespace(s, i);
    if start >= s.len() {
        None
    } else {
        let end = token_end(s, start);
        Some(
            (
                TokenView { kind: kind_of(s[start]), literal: s.subrange(start, end) },
                position(s, start),
                end,
            ),
        )
    }
}

/// The tokens from `i` on, each with its position, up to the end of the stream.
pub open spec fn tokens(s: Seq<char>, i: int) -> Seq<Lexeme>
    decreases s.len() - i,
    when 0 <= i <= s.len()
    via tokens_decreases
{
    match next_token(s, i) {
        None => Seq::empty(),
        Some((token, info, next)) => seq![(token, info)] + tokens(s, next),
    }
}

#[via_fn]
proof fn tokens_decreases(s: Seq<char>, i: int) {
    lemma_next_token(s, i);
}

/// The tokens of a source.
pub open spec fn tokenized(s: Seq<char>) -> Seq<Lexeme> {
    tokens(s, 0)
}

/// A character stands on no line beyond its own place, and its line starts at
/// or before it.
pub proof fn lemma_position(s: Seq<char>, i: int)
    requires
        0 <= i,
    ensures
        0 <= line_of(s, i) <= line_start(s, i) <= i,
    decreases i,
{
    if i > 0 {
        lemma_position(s, i - 1);
    }
}

/// Skipping whitespace stays within the source, moves on only over
/// whitespace, and stops before a character that is none.
pub proof fn lemma_after_whitespace(s: Seq<char>, i: int)
    requires
        0 <= i <= s.len(),
    ensures
        i <= after_whitespace(s, i) <= s.len(),
        forall|k: int| i <= k < after_whitespace(s, i) ==> whitespace(s[k]),
        after_whitespace(s, i) < s.len() ==> !whitespace(s[after_whitespace(s, i)]),
    decreases s.len() - i,
{
    if i < s.len() && whitespace(s[i]) {
        lemma_after_whitespace(s, i + 1);
    }
}

/// A run of numeric characters ends within the source, at or behind the place
/// where it goes on.
pub proof fn lemma_numeric_end(s: Seq<char>, i: int)
    requires
        0 <= i <= s.len(),
    ensures
        i <= numeric_end(s, i) <= s.len(),
    decreases s.len() - i,
{
    if i < s.len() && numeric(s[i]) {
        lemma_numeric_end(s, i + 1);
    }
}

/// A number ends within the source, at or behind the place where it goes on.
pub proof fn lemma_number_end(s: Seq<char>, i: int)
    requires
        0 <= i <= s.len(),
    ensures
        i <= number_end(s, i) <= s.len(),
{
    lemma_numeric_end(s, i);
    if fraction_at(s, numeric_end(s, i)) {
        lemma_numeric_end(s, numeric_end(s, i) + 1);
    }
}

/// A word ends within the source, at or behind the place where it goes on.
pub proof fn lemma_word_end(s: Seq<char>, i: int)
    requires
        0 <= i <= s.len(),
    ensures
        i <= word_end(s, i) <= s.len(),
    decreases s.len() - i,
{
    if word_part(s, i) {
        lemma_word_end(s, i + 1);
    }
}

/// A string ends within the source, at or behind the place where it goes on.
pub proof fn lemma_string_end(s: Seq<char>, i: int)
    requires
        0 <= i <= s.len(),
    ensures
        i <= string_end(s, i) <= s.len(),
    decreases s.len() - i,
{
    if i < s.len() && !closing_quote(s, i) {
        lemma_string_end(s, i + 1);
    }
}

/// A token holds at least one character and ends within the source.
pub proof fn lemma_token_end(s: Seq<char>, start: int)
    requires
        0 <= start < s.len(),
    ensures
        start < token_end(s, start) <= s.len(),
{
    lemma_number_end(s, start + 1);
    lemma_word_end(s, start + 1);
    lemma_string_end(s, start + 1);
}

/// Taking a token moves on within the source.
pub proof fn lemma_next_token(s: Seq<char>, i: int)
    requires
        0 <= i <= s.len(),
    ensures
        match next_token(s, i) {
            None => true,
            Some((token, info, next)) => i < next <= s.len(),
        },
{
    lemma_after_whitespace(s, i);
    let start = after_whitespace(s, i);
    if start < s.len() {
        lemma_token_end(s, start);
    }
}

/// Once the stream has ended it stays ended: behind the whitespace nothing
/// more is found.
pub proof fn lemma_stream_end(s: Seq<char>, i: int)
    requires
        0 <= i <= s.len(),
        next_token(s, i) is None,
    ensures
        tokens(s, i).len() == 0,
        tokens(s, after_whitespace(s, i)).len() == 0,
{
    lemma_after_whitespace(s, i);
    let start = after_whitespace(s, i);
    assert(after_whitespace(s, start) == start);
}

/// A place in a source, with the line that it stands on.
#[derive(Clone, Copy)]
struct Place {
    index: usize,
    line: usize,
    line_start: usize,
}

/// Turns source text into tokens, one at a time.
///
/// Its state is the source and the place of the next character. The line that
/// it counts and the start of that line are kept for speed only: they are
/// always those of that place, [`line_of`] and [`line_start`].
pub struct Lexer {
    source: Vec<char>,
    at: Place,
}

impl Lexer {
    #[verifier::type_invariant]
    closed spec fn inv(&self) -> bool {
        &&& self.at.index <= self.source@.len()
        &&& self.at.line == line_of(self.source@, self.at.index as int)
        &&& self.at.line_start == line_start(self.source@, self.at.index as int)
    }

    /// The characters of the source.
    pub closed spec fn source(&self) -> Seq<char> {
        self.source@
    }

    /// The place of the next character.
    pub closed spec fn index(&self) -> int {
        self.at.index as int
    }

    /// The tokens that are still to come.
    pub open spec fn remaining(&self) -> Seq<Lexeme> {
        tokens(self.source(), self.index())
    }

    /// A tokenizer at the start of `source`.
    pub fn new(source: &str) -> (lexer: Lexer)
        ensures
            lexer.source() == source@,
            lexer.index() == 0,
            lexer.remaining() == tokenized(source@),
    {
        Lexer { source: chars_of(source), at: Place { index: 0, line: 0, line_start: 0 } }
    }

    /// The next character, or the null character at the end of the source.
    pub fn peek(&self) -> (c: char)
        ensures
            0 <= self.index() <= self.source().len(),
            c == peek_at(self.source(), self.index()),
    {
        proof {
            use_type_invariant(self);
        }
        if self.at.index < self.source.len() {
            self.source[self.at.index]
        } else {
            '\0'
        }
    }

    /// The character `offset` places from the next one, or the null character
    /// where the source has none there.
    pub fn peek_offset(&self, offset: isize) -> (c: char)
        ensures
            c == peek_at(self.source(), self.index() + offset),
    {
        proof {
            use_type_invariant(self);
        }
        if offset >= 0 {
            let forward = offset as usize;
            if forward < self.source.len() - self.at.index {
                self.source[self.at.index + forward]
            } else {
                '\0'
            }
        } else {
            let back = (-(offset + 1)) as usize;
            if self.at.index > back {
                self.source[self.at.index - back - 1]
            } else {
                '\0'
            }
        }
    }

    /// Moves on by one character, and counts a line where it is a line break.
    fn advance(&mut self)
        requires
            old(self).index() < old(self).source().len(),
        ensures
            final(self).source() == old(self).source(),
            final(self).index() == old(self).index() + 1,
    {
        proof {
            use_type_invariant(&*self);
            lemma_position(self.source@, self.at.index as int);
            assert(self.at.index < self.source.len());
        }
        let at = self.at;
        if self.source[at.index] == '\n' {
            self.at = Place { index: at.index + 1, line: at.line + 1, line_start: at.index + 1 };
        } else {
            self.at = Place { index: at.index + 1, line: at.line, line_start: at.line_start };
        }
    }

    /// Moves on over whitespace.
    fn skip_whitespace(&mut self)
        ensures
            final(self).source() == old(self).source(),
            final(self).index() == after_whitespace(old(self).source(), old(self).index()),
    {
        proof {
            use_type_invariant(&*self);
        }
        while self.at.index < self.source.len() && self.source[self.at.index].is_whitespace()
            invariant
                self.source@ == old(self).source@,
                self.at.index <= self.source@.len(),
                after_whitespace(self.source(), self.index()) == after_whitespace(
                    old(self).source(),
                    old(self).index(),
                ),
            decreases self.source@.len() - self.at.index,
        {
            self.advance();
        }
    }

    /// Takes the next token, if there is one.
    fn consume(&mut self) -> (r: Option<(Token, TokenInfo)>)
        ensures
            final(self).source() == old(self).source(),
            match next_token(old(self).source(), old(self).index()) {
                None => r is None && final(self).index() == after_whitespace(
                    old(self).source(),
                    old(self).index(),
                ),
                Some((token, info, next)) => final(self).index() == next && (r matches Some(
                    (found, at),
                ) && found@ == token && at == info),
            },
    {
        self.skip_whitespace();
        proof {
            use_type_invariant(&*self);
            lemma_position(self.source@, self.at.index as int);
        }
        let token_info = TokenInfo { line: self.at.line, col: self.at.index - self.at.line_start };
        if self.at.index >= self.source.len() {
            return None;
        }
        let c = self.peek();
        if is_ascii_digit(c) {
            Some((self.consume_number(), token_info))
        } else if is_ascii_letter(c) {
            Some((self.consume_word(), token_info))
        } else if c == '"' {
            Some((self.consume_string(), token_info))
        } else {
            Some((self.consume_char(), token_info))
        }
    }

    /// Takes the next character as a symbol.
    fn consume_char(&mut self) -> (token: Token)
        requires
            old(self).index() < old(self).source().len(),
        ensures
            final(self).source() == old(self).source(),
            final(self).index() == old(self).index() + 1,
            token@ == (TokenView {
                kind: TokenKind::Symbol,
                literal: old(self).source().subrange(old(self).index(), old(self).index() + 1),
            }),
    {
        let start = self.at.index;
        self.advance();
        Token { kind: TokenKind::Symbol, literal: string_of(&self.source, start, self.at.index) }
    }

    /// Takes a word: the letter that starts it, and every alphanumeric
    /// character and underscore that follows.
    fn consume_word(&mut self) -> (token: Token)
        requires
            old(self).index() < old(self).source().len(),
        ensures
            final(self).source() == old(self).source(),
            final(self).index() == word_end(old(self).source(), old(self).index() + 1),
            token@ == (TokenView {
                kind: TokenKind::Word,
                literal: old(self).source().subrange(
                    old(self).index(),
                    word_end(old(self).source(), old(self).index() + 1),
                ),
            }),
    {
        let start = self.at.index;
        self.advance();
        while self.at.index < self.source.len() && (self.source[self.at.index].is_alphanumeric()
            || self.source[self.at.index] == '_')
            invariant
                self.source@ == old(self).source@,
                start < self.at.index <= self.source@.len(),
                word_end(self.source@, self.at.index as int) == word_end(self.source@, start + 1),
            decreases self.source@.len() - self.at.index,
        {
            self.advance();
        }
        Token { kind: TokenKind::Word, literal: string_of(&self.source, start, self.at.index) }
    }

    /// Moves on over numeric characters.
    fn skip_numeric(&mut self)
        ensures
            final(self).source() == old(self).source(),
            final(self).index() == numeric_end(old(self).source(), old(self).index()),
            old(self).index() <= final(self).index() <= final(self).source().len(),
    {
        proof {
            use_type_invariant(&*self);
        }
        while self.at.index < self.source.len() && self.source[self.at.index].is_numeric()
            invariant
                self.source@ == old(self).source@,
                old(self).at.index <= self.at.index <= self.source@.len(),
                numeric_end(self.source@, self.at.index as int) == numeric_end(
                    self.source@,
                    old(self).at.index as int,
                ),
            decreases self.source@.len() - self.at.index,
        {
            self.advance();
        }
    }

    /// Takes a number: the digit that starts it and the numeric characters
    /// that follow, and then one point with the numeric characters behind it,
    /// where a numeric character follows the point.
    fn consume_number(&mut self) -> (token: Token)
        requires
            old(self).index() < old(self).source().len(),
        ensures
            final(self).source() == old(self).source(),
            final(self).index() == number_end(old(self).source(), old(self).index() + 1),
            token@ == (TokenView {
                kind: TokenKind::Number,
                literal: old(self).source().subrange(
                    old(self).index(),
                    number_end(old(self).source(), old(self).index() + 1),
                ),
            }),
    {
        let start = self.at.index;
        self.advance();
        self.skip_numeric();
        if self.source.len() - self.at.index > 1 && self.source[self.at.index] == '.'
            && self.source[self.at.index + 1].is_numeric() {
            self.advance();
            self.skip_numeric();
        }
        Token { kind: TokenKind::Number, literal: string_of(&self.source, start, self.at.index) }
    }

    /// Takes a string: from its opening quote through the first double quote
    /// that no backslash stands before, or through the end of the source where
    /// there is no such quote.
    fn consume_string(&mut self) -> (token: Token)
        requires
            old(self).index() < old(self).source().len(),
        ensures
            final(self).source() == old(self).source(),
            final(self).index() == string_end(old(self).source(), old(self).index() + 1),
            token@ == (TokenView {
                kind: TokenKind::String,
                literal: old(self).source().subrange(
                    old(self).index(),
                    string_end(old(self).source(), old(self).index() + 1),
                ),
            }),
    {
        let start = self.at.index;
        self.advance();
        while self.at.index < self.source.len() && (self.source[self.at.index] != '"'
            || self.source[self.at.index - 1] == '\\')
            invariant
                self.source@ == old(self).source@,
                start < self.at.index <= self.source@.len(),
                string_end(self.source@, self.at.index as int) == string_end(
                    self.source@,
                    start + 1,
                ),
            decreases self.source@.len() - self.at.index,
        {
            self.advance();
        }
        if self.at.index < self.source.len() {
            self.advance();
        }
        Token { kind: TokenKind::String, literal: string_of(&self.source, start, self.at.index) }
    }

    /// The next token with its position, or `None` at the end of the stream.
    /// After the end every call returns `None`.
    pub fn next(&mut self) -> (r: Option<(Token, TokenInfo)>)
        ensures
            final(self).source() == old(self).source(),
            match next_token(old(self).source(), old(self).index()) {
                None => r is None && final(self).index() == after_whitespace(
                    old(self).source(),
                    old(self).index(),
                ),
                Some((token, info, next)) => final(self).index() == next && (r matches Some(
                    (found, at),
                ) && found@ == token && at == info),
            },
            match r {
                None => old(self).remaining().len() == 0 && final(self).remaining().len() == 0,
                Some((token, info)) => old(self).remaining().len() > 0 && old(self).remaining()[0]
                    == (token@, info) && final(self).remaining() == old(self).remaining().skip(1),
            },
    {
        proof {
            use_type_invariant(&*self);
            if next_token(self.source(), self.index()) is None {
                lemma_stream_end(self.source(), self.index());
            }
        }
        let r = self.consume();
        proof {
            if r is Some {
                lemma_next_token(old(self).source(), old(self).index());
                assert(old(self).remaining().skip(1) =~= self.remaining());
            }
        }
        r
    }
}

/// The tokens of a list as a stream hands them out.
pub open spec fn lexemes(tokens: Seq<(Token, TokenInfo)>) -> Seq<Lexeme> {
    tokens.map_values(|item: (Token, TokenInfo)| (item.0@, item.1))
}

/// Tokenizes `source` to the end of the stream.
pub fn tokenize(source: &str) -> (found: Vec<(Token, TokenInfo)>)
    ensures
        lexemes(found@) == tokenized(source@),
{
    let mut lexer = Lexer::new(source);
    let mut found: Vec<(Token, TokenInfo)> = Vec::new();
    let ghost all = tokenized(source@);
    loop
        invariant
            lexemes(found@) + lexer.remaining() == all,
        ensures
            lexemes(found@) == all,
        decreases lexer.remaining().len(),
    {
        let ghost before = lexer.remaining();
        let ghost taken = lexemes(found@);
        match lexer.next() {
            None => {
                assert(taken + before =~= taken);
                break ;
            },
            Some(item) => {
                found.push(item);
                proof {
                    assert(lexemes(found@) =~= taken.push(before[0]));
                    assert(taken.push(before[0]) + before.skip(1) =~= taken + before);
                }
            },
        }
    }
    found
}

/// The texts of the tokens, one behind the other.
pub open spec fn joined(tokens: Seq<Lexeme>) -> Seq<char>
    decreases tokens.len(),
{
    if tokens.len() == 0 {
        Seq::empty()
    } else {
        tokens[0].0.literal + joined(tokens.skip(1))
    }
}

/// The text without its whitespace.
pub open spec fn without_whitespace(s: Seq<char>) -> Seq<char> {
    s.filter(|c: char| !whitespace(c))
}

/// Text that is whitespace throughout is empty without it.
pub proof fn lemma_whitespace_only(s: Seq<char>)
    requires
        forall|i: int| 0 <= i < s.len() ==> whitespace(#[trigger] s[i]),
    ensures
        without_whitespace(s) == Seq::<char>::empty(),
    decreases s.len(),
{
    reveal(Seq::filter);
    if s.len() > 0 {
        lemma_whitespace_only(s.drop_last());
    }
}

/// The texts of the tokens from `i` on, joined, are the source from `i` on,
/// but for whitespace.
pub proof fn lemma_tokens_rejoin_from(s: Seq<char>, i: int)
    requires
        0 <= i <= s.len(),
    ensures
        without_whitespace(joined(tokens(s, i))) == without_whitespace(
            s.subrange(i, s.len() as int),
        ),
    decreases s.len() - i,
{
    let keep = |c: char| !whitespace(c);
    let last = s.len() as int;
    lemma_next_token(s, i);
    lemma_after_whitespace(s, i);
    let start = after_whitespace(s, i);
    let gap = s.subrange(i, start);
    lemma_whitespace_only(gap);
    match next_token(s, i) {
        None => {
            assert(joined(tokens(s, i)) =~= Seq::<char>::empty());
            assert(s.subrange(i, last) =~= gap);
            lemma_whitespace_only(Seq::<char>::empty());
        },
        Some((token, info, end)) => {
            lemma_tokens_rejoin_from(s, end);
            let rest = tokens(s, end);
            lemma_token_end(s, start);
            assert(token.literal == s.subrange(start, end));
            assert(tokens(s, i).skip(1) =~= rest);
            assert(joined(tokens(s, i)) == token.literal + joined(rest));
            Seq::filter_distributes_over_add(token.literal, joined(rest), keep);
            assert(s.subrange(i, last) =~= gap + (token.literal + s.subrange(end, last)));
            Seq::filter_distributes_over_add(gap, token.literal + s.subrange(end, last), keep);
            Seq::filter_distributes_over_add(token.literal, s.subrange(end, last), keep);
            assert(Seq::<char>::empty() + (token.literal + s.subrange(end, last)).filter(keep)
                =~= (token.literal + s.subrange(end, last)).filter(keep));
        },
    }
}

/// The texts of the tokens of a source, joined in order, are the source again,
/// but for whitespace: every character that is no whitespace stands in a
/// token.
pub proof fn lemma_tokens_rejoin(s: Seq<char>)
    ensures
        without_whitespace(joined(tokenized(s))) == without_whitespace(s),
{
    lemma_tokens_rejoin_from(s, 0);
    assert(s.subrange(0, s.len() as int) =~= s);
}

} // verus!
