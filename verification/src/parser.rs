//! The parser: from a stream of tokens to a forest of things.
//!
//! ```text
//! document   := thing_decl*
//! thing_decl := "thing" STRING "{" (prop_decl | thing_decl)* "}"
//! prop_decl  := TYPE WORD "=" VALUE
//! TYPE       := "int" | "float" | "bool" | "string"
//! ```
//!
//! Parsing stops at the first token that does not fit, and reports it with
//! its position.

use crate::assoc::put;
use crate::lexer::{lexemes, Lexeme, Lexer, Token, TokenInfo, TokenKind, TokenView};
use crate::chars::ascii_digit;
use crate::literal::{decimal_text, push_decimal, unsigned_part};
use crate::string_utils::{strip_quotes, unquoted};
use crate::text::same_text;
use crate::thing::{
    bool_value, float_value, int_value, lemma_put_valued, lemma_put_well_formed, string_value,
    valued_things, well_formed_things, Prop, PropValue, PropValueView, PropView, Thing, ThingMap,
    ThingView,
};
use vstd::prelude::*;

verus! {

/// A stream of tokens, each with its position.
pub trait TokenSource {
    /// The tokens that are still to come.
    spec fn remaining(&self) -> Seq<Lexeme>;

    /// Takes the next token off the stream, or returns `None` where none is
    /// left.
    fn next(&mut self) -> (r: Option<(Token, TokenInfo)>)
        ensures
            match r {
                None => old(self).remaining().len() == 0 && final(self).remaining().len() == 0,
                Some((token, info)) => old(self).remaining().len() > 0 && old(self).remaining()[0]
                    == (token@, info) && final(self).remaining() == old(self).remaining().skip(1),
            },
    ;
}

impl TokenSource for Lexer {
    open spec fn remaining(&self) -> Seq<Lexeme> {
        Lexer::remaining(self)
    }

    fn next(&mut self) -> (r: Option<(Token, TokenInfo)>) {
        Lexer::next(self)
    }
}

/// A stream over a list of tokens.
pub struct TokenList {
    tokens: Vec<(Token, TokenInfo)>,
    taken: usize,
}

impl TokenList {
    #[verifier::type_invariant]
    closed spec fn inv(&self) -> bool {
        self.taken <= self.tokens@.len()
    }

    /// A stream that hands out `tokens`, first to last.
    pub fn new(tokens: Vec<(Token, TokenInfo)>) -> (list: TokenList)
        ensures
            list.remaining() == lexemes(tokens@),
    {
        let list = TokenList { tokens, taken: 0 };
        assert(list.tokens@.skip(0) =~= list.tokens@);
        list
    }
}

impl TokenSource for TokenList {
    closed spec fn remaining(&self) -> Seq<Lexeme> {
        lexemes(self.tokens@.skip(self.taken as int))
    }

    fn next(&mut self) -> (r: Option<(Token, TokenInfo)>) {
        proof {
            use_type_invariant(&*self);
        }
        if self.taken < self.tokens.len() {
            let item = &self.tokens[self.taken];
            let token = Token { kind: item.0.kind, literal: item.0.literal.clone() };
            let info = item.1;
            self.taken += 1;
            proof {
                let before = old(self).tokens@.skip(old(self).taken as int);
                assert(before[0] == old(self).tokens@[old(self).taken as int]);
                assert(lexemes(before).skip(1) =~= lexemes(self.tokens@.skip(self.taken as int)));
            }
            Some((token, info))
        } else {
            None
        }
    }
}

/// What a parse error is: the model of [`ParseError`].
pub struct ParseErrorView {
    pub token_info: TokenInfo,
    pub message: Seq<char>,
}

/// Why parsing stopped, and at which token.
#[derive(Debug)]
pub struct ParseError {
    pub token_info: TokenInfo,
    pub message: String,
}

impl ParseError {
    /// The error with its message as a sequence of characters.
    pub open spec fn view(&self) -> ParseErrorView {
        ParseErrorView { token_info: self.token_info, message: self.message@ }
    }

    /// The error with `message` at `token_info`.
    pub fn new(token_info: TokenInfo, message: &str) -> (error: ParseError)
        ensures
            error@ == (ParseErrorView { token_info, message: message@ }),
    {
        ParseError { token_info, message: String::from_str(message) }
    }
}

/// The state of a parse: the roots that are complete, by name, and the things
/// that are still open, the innermost last.
pub struct ParserView {
    pub things: Seq<(Seq<char>, ThingView)>,
    pub thing_stack: Seq<ThingView>,
}

/// What one step of the parse leads to: the state behind it, or the error
/// that ends the parse.
pub type Step = Result<ParserView, ParseErrorView>;

impl ParserView {
    /// The state before the first token.
    pub open spec fn new() -> ParserView {
        ParserView { things: Seq::empty(), thing_stack: Seq::empty() }
    }

    /// The state after a new thing has been opened.
    pub open spec fn open(self, name: Seq<char>) -> ParserView {
        ParserView { thing_stack: self.thing_stack.push(ThingView::new(name)), ..self }
    }

    /// The state after `prop` has been put on the innermost open thing.
    pub open spec fn attach(self, prop: PropView) -> ParserView {
        ParserView {
            thing_stack: self.thing_stack.update(
                self.thing_stack.len() - 1,
                self.thing_stack.last().with_prop(prop),
            ),
            ..self
        }
    }

    /// The state after the innermost open thing has been closed: it is put
    /// below the thing that was open around it, or among the roots where there
    /// is none.
    pub open spec fn close(self) -> ParserView {
        let thing = self.thing_stack.last();
        let around = self.thing_stack.drop_last();
        if around.len() > 0 {
            ParserView {
                thing_stack: around.update(around.len() - 1, around.last().with_thing(thing)),
                ..self
            }
        } else {
            ParserView { things: put(self.things, thing.name, thing), thing_stack: around }
        }
    }
}

/// The error with `message` at `token_info`.
pub open spec fn error_at(token_info: TokenInfo, message: Seq<char>) -> ParseErrorView {
    ParseErrorView { token_info, message }
}

/// Whether the token is the symbol `text`.
pub open spec fn is_symbol(token: TokenView, text: Seq<char>) -> bool {
    token.kind == TokenKind::Symbol && token.literal == text
}

/// Whether `word` names a type of prop.
pub open spec fn is_type_word(word: Seq<char>) -> bool {
    word == "int"@ || word == "float"@ || word == "bool"@ || word == "string"@
}

/// The value of `literal` as a prop of the type that `type_word` names.
pub open spec fn typed_value(type_word: Seq<char>, literal: Seq<char>) -> PropValueView {
    if type_word == "int"@ {
        int_value(literal)
    } else if type_word == "float"@ {
        float_value(literal)
    } else if type_word == "bool"@ {
        bool_value(literal)
    } else {
        string_value(literal)
    }
}

/// The step that the word `thing` at `at` starts, with `rest` behind it: a
/// string follows, which is the name in quotes, and then an opening brace.
pub open spec fn thing_step(state: ParserView, at: TokenInfo, rest: Seq<Lexeme>) -> Step {
    if rest.len() == 0 {
        Err(error_at(at, "Expected String name after keyword `thing`"@))
    } else if rest[0].0.kind != TokenKind::String {
        Err(error_at(rest[0].1, "Expected String name after keyword `thing`"@))
    } else if rest.len() == 1 {
        Err(error_at(rest[0].1, "Expected `{` after thing name"@))
    } else if !is_symbol(rest[1].0, "{"@) {
        Err(error_at(rest[1].1, "Expected `{` after thing name"@))
    } else {
        Ok(state.open(unquoted(rest[0].0.literal)))
    }
}

/// The number of tokens that the step of the word `thing` takes from `rest`,
/// whether it succeeds or not: each token that it looks at, up to the first
/// that does not fit.
pub open spec fn thing_taken(rest: Seq<Lexeme>) -> nat {
    if rest.len() == 0 {
        0
    } else if rest[0].0.kind != TokenKind::String || rest.len() == 1 {
        1
    } else {
        2
    }
}

/// The step that the type word `type_word` at `at` starts, with `rest` behind
/// it: a word follows, which is the name of the prop, then an equals sign,
/// then one token whose text is a value of that type. The prop is put on the
/// innermost open thing; where no thing is open, that is an error at the type
/// word, which comes after any error in the declaration itself.
pub open spec fn prop_step(
    state: ParserView,
    type_word: Seq<char>,
    at: TokenInfo,
    rest: Seq<Lexeme>,
) -> Step {
    if rest.len() == 0 {
        Err(error_at(at, "Expected name after prop type"@))
    } else if rest[0].0.kind != TokenKind::Word {
        Err(error_at(rest[0].1, "Expected name after prop type"@))
    } else if rest.len() == 1 {
        Err(error_at(rest[0].1, "Expected `=` symbol prop name"@))
    } else if !is_symbol(rest[1].0, "="@) {
        Err(error_at(rest[1].1, "Expected `=` symbol prop name"@))
    } else if rest.len() == 2 {
        Err(error_at(rest[1].1, "Expected value after prop declaration"@))
    } else if typed_value(type_word, rest[2].0.literal) is Error {
        Err(error_at(rest[2].1, "Unable to parse prop value matching declared prop type"@))
    } else if state.thing_stack.len() == 0 {
        Err(error_at(at, "Unexpected prop definition outside of thing"@))
    } else {
        Ok(
            state.attach(
                PropView {
                    name: rest[0].0.literal,
                    value: typed_value(type_word, rest[2].0.literal),
                },
            ),
        )
    }
}

/// The number of tokens that the step of a type word takes from `rest`,
/// whether it succeeds or not: each token that it looks at, up to the first
/// that does not fit.
pub open spec fn prop_taken(rest: Seq<Lexeme>) -> nat {
    if rest.len() == 0 {
        0
    } else if rest[0].0.kind != TokenKind::Word || rest.len() == 1 {
        1
    } else if !is_symbol(rest[1].0, "="@) || rest.len() == 2 {
        2
    } else {
        3
    }
}

/// The step of a closing brace at `at`: it closes the innermost open thing.
pub open spec fn close_step(state: ParserView, at: TokenInfo) -> Step {
    if state.thing_stack.len() == 0 {
        Err(error_at(at, "Unexpected symbol: `}`"@))
    } else {
        Ok(state.close())
    }
}

/// The step that `token` at `at` starts, with `rest` behind it. The word
/// `thing` opens a thing, a type word declares a prop, a closing brace closes
/// a thing, and no other token may stand here.
pub open spec fn token_step(
    state: ParserView,
    token: TokenView,
    at: TokenInfo,
    rest: Seq<Lexeme>,
) -> Step {
    match token.kind {
        TokenKind::Word => if token.literal == "thing"@ {
            thing_step(state, at, rest)
        } else if is_type_word(token.literal) {
            prop_step(state, token.literal, at, rest)
        } else {
            Err(error_at(at, "Unexpected token"@))
        },
        TokenKind::Symbol => if token.literal == "}"@ {
            close_step(state, at)
        } else {
            Err(error_at(at, "Unexpected token"@))
        },
        _ => Err(error_at(at, "Unexpected token"@)),
    }
}

/// The number of tokens that the step of `token` takes from `rest`, whether
/// it succeeds or not. Only the word `thing` and the type words take any.
pub open spec fn token_taken(token: TokenView, rest: Seq<Lexeme>) -> nat {
    if is_word(token, "thing"@) {
        thing_taken(rest)
    } else if token.kind == TokenKind::Word && is_type_word(token.literal) {
        prop_taken(rest)
    } else {
        0
    }
}

/// Whether a step that should lead to `step` from the state `before` has gone
/// as it should: on success the state is the one that `step` names, and on
/// an error the error is the one that `step` names and the state is as it was.
pub open spec fn stepped(
    step: Step,
    before: ParserView,
    after: ParserView,
    r: Result<(), ParseError>,
) -> bool {
    match step {
        Ok(next) => r is Ok && after == next,
        Err(error) => r is Err && r->Err_0@ == error && after == before,
    }
}

/// What the parse comes to at the end of the stream: the roots, or an error at
/// the origin that names the innermost thing that is still open.
pub open spec fn finish(state: ParserView) -> Result<Seq<(Seq<char>, ThingView)>, ParseErrorView> {
    if state.thing_stack.len() > 0 {
        Err(
            error_at(
                TokenInfo { line: 0, col: 0 },
                "Token `"@ + state.thing_stack.last().name + "` is missing a closing brace `}`"@,
            ),
        )
    } else {
        Ok(state.things)
    }
}

/// What parsing `tokens` from `state` on comes to.
pub open spec fn parse_from(state: ParserView, tokens: Seq<Lexeme>) -> Result<
    Seq<(Seq<char>, ThingView)>,
    ParseErrorView,
>
    decreases tokens.len(),
{
    if tokens.len() == 0 {
        finish(state)
    } else {
        match token_step(state, tokens[0].0, tokens[0].1, tokens.skip(1)) {
            Err(error) => Err(error),
            Ok(next) => parse_from(
                next,
                tokens.skip(1 + token_taken(tokens[0].0, tokens.skip(1)) as int),
            ),
        }
    }
}

/// What parsing `tokens` comes to: the forest, as the roots by name in the
/// order in which their names came first, or the first error.
pub open spec fn parse(tokens: Seq<Lexeme>) -> Result<Seq<(Seq<char>, ThingView)>, ParseErrorView> {
    parse_from(ParserView::new(), tokens)
}

/// A step takes no more tokens than there are.
pub proof fn lemma_token_taken(token: TokenView, rest: Seq<Lexeme>)
    ensures
        token_taken(token, rest) <= rest.len(),
{
}

/// The views of the things of a stack.
pub open spec fn stack_view(stack: Seq<Thing>) -> Seq<ThingView> {
    stack.map_values(|thing: Thing| thing@)
}

/// Builds a forest from tokens.
#[derive(Debug)]
pub struct Parser {
    /// The roots that are complete, by name.
    pub things: ThingMap,
    thing_stack: Vec<Thing>,
}

impl Parser {
    /// The state of the parse: the roots are those of the field `things`.
    pub closed spec fn view(&self) -> ParserView {
        ParserView { things: self.things@, thing_stack: stack_view(self.thing_stack@) }
    }

    /// The forest: the roots that are complete, by name.
    pub fn forest(&self) -> (things: &ThingMap)
        ensures
            things@ == self@.things,
    {
        &self.things
    }

    /// A parser that has seen no token.
    pub fn new() -> (parser: Parser)
        ensures
            parser@ == ParserView::new(),
    {
        let parser = Parser { things: ThingMap::new(), thing_stack: Vec::new() };
        assert(parser@.thing_stack =~= Seq::empty());
        parser
    }

    /// Parses the whole stream. Returns the parser that holds the forest, or
    /// the first error.
    pub fn from_tokens<S: TokenSource>(tokens: S) -> (r: Result<Parser, ParseError>)
        ensures
            match parse(tokens.remaining()) {
                Ok(forest) => r is Ok && r->Ok_0@ == (ParserView {
                    things: forest,
                    thing_stack: Seq::empty(),
                }),
                Err(error) => r is Err && r->Err_0@ == error,
            },
    {
        let mut stream = tokens;
        let mut parser = Parser::new();
        loop
            invariant
                parse_from(parser@, stream.remaining()) == parse(tokens.remaining()),
            ensures
                stream.remaining().len() == 0,
                parse_from(parser@, stream.remaining()) == parse(tokens.remaining()),
            decreases stream.remaining().len(),
        {
            let ghost before = stream.remaining();
            let ghost state = parser@;
            match stream.next() {
                None => {
                    break ;
                },
                Some(item) => {
                    proof {
                        lemma_token_taken(item.0@, before.skip(1));
                    }
                    match parser.parse_token(item, &mut stream) {
                        Ok(()) => {
                            proof {
                                let taken = token_taken(item.0@, before.skip(1));
                                assert(before.skip(1).skip(taken as int) =~= before.skip(
                                    1 + taken as int,
                                ));
                            }
                        },
                        Err(err) => {
                            return Err(err);
                        },
                    }
                },
            }
        }
        if parser.thing_stack.len() > 0 {
            let thing = &parser.thing_stack[parser.thing_stack.len() - 1];
            let mut message = String::from_str("Token `");
            message.append(thing.name.as_str());
            message.append("` is missing a closing brace `}`");
            return Err(ParseError { token_info: TokenInfo::new(0, 0), message });
        }
        assert(parser@.thing_stack =~= Seq::empty());
        Ok(parser)
    }

    /// Opens a thing whose name is `name_literal` without its quotes.
    fn add_thing(&mut self, name_literal: &String)
        ensures
            final(self)@ == old(self)@.open(unquoted(name_literal@)),
    {
        self.thing_stack.push(Thing::new(strip_quotes(name_literal.as_str())));
        assert(self@.thing_stack =~= old(self)@.thing_stack.push(
            ThingView::new(unquoted(name_literal@)),
        ));
    }

    /// Takes the step that `item` starts, with the tokens that it needs from
    /// `iter`. An error leaves the parser as it was.
    fn parse_token<S: TokenSource>(&mut self, item: (Token, TokenInfo), iter: &mut S) -> (r: Result<
        (),
        ParseError,
    >)
        ensures
            stepped(
                token_step(old(self)@, item.0@, item.1, old(iter).remaining()),
                old(self)@,
                final(self)@,
                r,
            ),
            final(iter).remaining() == old(iter).remaining().skip(
                token_taken(item.0@, old(iter).remaining()) as int,
            ),
    {
        let (token, token_info) = item;
        proof {
            assert(iter.remaining().skip(0) =~= iter.remaining());
        }
        match token.kind {
            TokenKind::Word => {
                if same_text(token.literal.as_str(), "thing") {
                    self.parse_thing((token, token_info), iter)
                } else if same_text(token.literal.as_str(), "int") || same_text(
                    token.literal.as_str(),
                    "float",
                ) || same_text(token.literal.as_str(), "bool") || same_text(
                    token.literal.as_str(),
                    "string",
                ) {
                    self.parse_prop((token, token_info), iter)
                } else {
                    Err(ParseError::new(token_info, "Unexpected token"))
                }
            },
            TokenKind::Symbol => {
                if same_text(token.literal.as_str(), "}") {
                    let thing = match self.thing_stack.pop() {
                        Some(thing) => thing,
                        None => {
                            assert(self@.thing_stack =~= old(self)@.thing_stack);
                            return Err(ParseError::new(token_info, "Unexpected symbol: `}`"));
                        },
                    };
                    let ghost around = self@.thing_stack;
                    assert(around =~= old(self)@.thing_stack.drop_last());
                    let open = self.thing_stack.len();
                    if open > 0 {
                        let parent = &mut self.thing_stack[open - 1];
                        parent.add_thing(thing);
                        assert(self@.thing_stack =~= around.update(
                            around.len() - 1,
                            around.last().with_thing(thing@),
                        ));
                    } else {
                        let name = thing.name.clone();
                        self.things.insert(name, thing);
                        assert(self@.thing_stack =~= around);
                    }
                    Ok(())
                } else {
                    Err(ParseError::new(token_info, "Unexpected token"))
                }
            },
            _ => Err(ParseError::new(token_info, "Unexpected token")),
        }
    }

    /// Takes the step of the word `thing`: the name and the opening brace. An
    /// error leaves the parser as it was.
    fn parse_thing<S: TokenSource>(&mut self, item: (Token, TokenInfo), iter: &mut S) -> (r: Result<
        (),
        ParseError,
    >)
        ensures
            stepped(
                thing_step(old(self)@, item.1, old(iter).remaining()),
                old(self)@,
                final(self)@,
                r,
            ),
            final(iter).remaining() == old(iter).remaining().skip(
                thing_taken(old(iter).remaining()) as int,
            ),
    {
        let (_, token_info) = item;
        let ghost rest = iter.remaining();
        proof {
            assert(rest.skip(0) =~= rest);
            if rest.len() >= 2 {
                assert(rest.skip(1).skip(1) =~= rest.skip(2));
            }
        }
        let (token_p1, token_p1_info) = match iter.next() {
            Some(next) => next,
            None => {
                return Err(
                    ParseError::new(token_info, "Expected String name after keyword `thing`"),
                );
            },
        };
        if token_p1.kind != TokenKind::String {
            return Err(
                ParseError::new(token_p1_info, "Expected String name after keyword `thing`"),
            );
        }
        let (token_p2, token_p2_info) = match iter.next() {
            Some(next) => next,
            None => {
                return Err(ParseError::new(token_p1_info, "Expected `{` after thing name"));
            },
        };
        assert(rest[1] == (token_p2@, token_p2_info));
        if token_p2.kind != TokenKind::Symbol || !same_text(token_p2.literal.as_str(), "{") {
            return Err(ParseError::new(token_p2_info, "Expected `{` after thing name"));
        }
        self.add_thing(&token_p1.literal);
        Ok(())
    }

    /// Takes the step of a type word: the name of the prop, the equals sign
    /// and the value, which is put on the innermost open thing. An error
    /// leaves the parser as it was.
    fn parse_prop<S: TokenSource>(&mut self, item: (Token, TokenInfo), iter: &mut S) -> (r: Result<
        (),
        ParseError,
    >)
        requires
            is_type_word(item.0@.literal),
        ensures
            stepped(
                prop_step(old(self)@, item.0@.literal, item.1, old(iter).remaining()),
                old(self)@,
                final(self)@,
                r,
            ),
            final(iter).remaining() == old(iter).remaining().skip(
                prop_taken(old(iter).remaining()) as int,
            ),
    {
        let (token, token_info) = item;
        let ghost rest = iter.remaining();
        proof {
            assert(rest.skip(0) =~= rest);
            if rest.len() >= 2 {
                assert(rest.skip(1).skip(1) =~= rest.skip(2));
            }
            if rest.len() >= 3 {
                assert(rest.skip(1).skip(1).skip(1) =~= rest.skip(3));
            }
        }
        let (token_name, token_name_info) = match iter.next() {
            Some(next) => next,
            None => {
                return Err(ParseError::new(token_info, "Expected name after prop type"));
            },
        };
        if token_name.kind != TokenKind::Word {
            return Err(ParseError::new(token_name_info, "Expected name after prop type"));
        }
        let prop_name = token_name.literal;
        let (token_eq, token_eq_info) = match iter.next() {
            Some(next) => next,
            None => {
                return Err(ParseError::new(token_name_info, "Expected `=` symbol prop name"));
            },
        };
        assert(rest[1] == (token_eq@, token_eq_info));
        if token_eq.kind != TokenKind::Symbol || !same_text(token_eq.literal.as_str(), "=") {
            return Err(ParseError::new(token_eq_info, "Expected `=` symbol prop name"));
        }
        let (token_val, token_val_info) = match iter.next() {
            Some(next) => next,
            None => {
                return Err(
                    ParseError::new(token_eq_info, "Expected value after prop declaration"),
                );
            },
        };
        assert(rest[2] == (token_val@, token_val_info));
        let prop = if same_text(token.literal.as_str(), "int") {
            Prop::int_from_literal(prop_name.as_str(), token_val.literal.as_str())
        } else if same_text(token.literal.as_str(), "float") {
            Prop::float_from_literal(prop_name.as_str(), token_val.literal.as_str())
        } else if same_text(token.literal.as_str(), "bool") {
            Prop::bool_from_literal(prop_name.as_str(), token_val.literal.as_str())
        } else {
            Prop::string_from_literal(prop_name.as_str(), token_val.literal.as_str())
        };
        if let PropValue::Error = prop.value {
            return Err(
                ParseError::new(
                    token_val_info,
                    "Unable to parse prop value matching declared prop type",
                ),
            );
        }
        let open = self.thing_stack.len();
        if open == 0 {
            return Err(ParseError::new(token_info, "Unexpected prop definition outside of thing"));
        }
        let ghost stack = self@.thing_stack;
        let top = &mut self.thing_stack[open - 1];
        top.add_prop(prop);
        assert(self@.thing_stack =~= stack.update(stack.len() - 1, stack.last().with_prop(prop@)));
        Ok(())
    }
}

/// Whether the token is the word `text`.
pub open spec fn is_word(token: TokenView, text: Seq<char>) -> bool {
    token.kind == TokenKind::Word && token.literal == text
}

/// Without the word `thing` among the tokens, parsing succeeds only where
/// there is no token at all, and the forest is then empty: each token that
/// stands outside of any thing is an error.
pub proof fn lemma_parse_without_thing(tokens: Seq<Lexeme>)
    requires
        forall|i: int| 0 <= i < tokens.len() ==> !is_word((#[trigger] tokens[i]).0, "thing"@),
    ensures
        parse(tokens) is Ok <==> tokens.len() == 0,
        parse(tokens) is Ok ==> parse(tokens) == Ok::<
            Seq<(Seq<char>, ThingView)>,
            ParseErrorView,
        >(Seq::empty()),
{
    if tokens.len() > 0 {
        assert(!is_word(tokens[0].0, "thing"@));
    }
}

/// The word `thing`, a name in quotes, an opening and a closing brace make a
/// forest of one root: it has the name without its quotes, and neither props
/// nor things below it.
pub proof fn lemma_parse_single_thing(
    name: Seq<char>,
    at_thing: TokenInfo,
    at_name: TokenInfo,
    at_open: TokenInfo,
    at_close: TokenInfo,
)
    ensures
        parse(
            seq![
                (TokenView { kind: TokenKind::Word, literal: "thing"@ }, at_thing),
                (TokenView { kind: TokenKind::String, literal: name }, at_name),
                (TokenView { kind: TokenKind::Symbol, literal: "{"@ }, at_open),
                (TokenView { kind: TokenKind::Symbol, literal: "}"@ }, at_close),
            ],
        ) == Ok::<Seq<(Seq<char>, ThingView)>, ParseErrorView>(
            seq![(unquoted(name), ThingView::new(unquoted(name)))],
        ),
{
    let tokens = seq![
        (TokenView { kind: TokenKind::Word, literal: "thing"@ }, at_thing),
        (TokenView { kind: TokenKind::String, literal: name }, at_name),
        (TokenView { kind: TokenKind::Symbol, literal: "{"@ }, at_open),
        (TokenView { kind: TokenKind::Symbol, literal: "}"@ }, at_close),
    ];
    let thing = ThingView::new(unquoted(name));
    let opened = ParserView::new().open(unquoted(name));
    let closed = ParserView {
        things: seq![(unquoted(name), thing)],
        thing_stack: Seq::<ThingView>::empty(),
    };
    reveal_with_fuel(parse_from, 3);
    let rest = tokens.skip(1);
    assert(rest[0] == tokens[1] && rest[1] == tokens[2]);
    assert(token_step(ParserView::new(), tokens[0].0, at_thing, rest) == Ok::<
        ParserView,
        ParseErrorView,
    >(opened));
    assert(token_taken(tokens[0].0, rest) == 2);
    let last = tokens.skip(3);
    assert(last[0] == tokens[3]);
    assert(opened.thing_stack.last() == thing);
    assert(opened.thing_stack.drop_last() =~= Seq::<ThingView>::empty());
    assert(put(Seq::<(Seq<char>, ThingView)>::empty(), thing.name, thing) =~= seq![
        (unquoted(name), thing),
    ]);
    assert(opened.close() == closed);
    assert(token_step(opened, last[0].0, at_close, last.skip(1)) == Ok::<
        ParserView,
        ParseErrorView,
    >(closed));
    assert(token_taken(last[0].0, last.skip(1)) == 0);
    assert(last.skip(1).len() == 0);
}

/// A literal that does not fit its type is an error at the literal, within a
/// thing and outside of any: the value is looked at before the place where
/// the prop would go.
pub proof fn lemma_prop_value_error(
    state: ParserView,
    type_word: Seq<char>,
    at: TokenInfo,
    rest: Seq<Lexeme>,
)
    requires
        rest.len() >= 3,
        rest[0].0.kind == TokenKind::Word,
        is_symbol(rest[1].0, "="@),
        typed_value(type_word, rest[2].0.literal) is Error,
    ensures
        prop_step(state, type_word, at, rest) == Err::<ParserView, ParseErrorView>(
            error_at(rest[2].1, "Unable to parse prop value matching declared prop type"@),
        ),
{
}

/// The declaration `int x = true` is an error at `true`, also where no thing
/// is open: `true` is no integer.
pub proof fn lemma_parse_int_true(
    name: Seq<char>,
    at_type: TokenInfo,
    at_name: TokenInfo,
    at_equals: TokenInfo,
    at_value: TokenInfo,
)
    ensures
        parse(
            seq![
                (TokenView { kind: TokenKind::Word, literal: "int"@ }, at_type),
                (TokenView { kind: TokenKind::Word, literal: name }, at_name),
                (TokenView { kind: TokenKind::Symbol, literal: "="@ }, at_equals),
                (TokenView { kind: TokenKind::Word, literal: "true"@ }, at_value),
            ],
        ) == Err::<Seq<(Seq<char>, ThingView)>, ParseErrorView>(
            error_at(at_value, "Unable to parse prop value matching declared prop type"@),
        ),
{
    let tokens = seq![
        (TokenView { kind: TokenKind::Word, literal: "int"@ }, at_type),
        (TokenView { kind: TokenKind::Word, literal: name }, at_name),
        (TokenView { kind: TokenKind::Symbol, literal: "="@ }, at_equals),
        (TokenView { kind: TokenKind::Word, literal: "true"@ }, at_value),
    ];
    let rest = tokens.skip(1);
    assert(rest[0] == tokens[1] && rest[1] == tokens[2] && rest[2] == tokens[3]);
    reveal_strlit("int");
    reveal_strlit("thing");
    reveal_strlit("true");
    assert("int"@.len() == 3 && "thing"@.len() == 5);
    assert("true"@[0] == 't');
    assert(unsigned_part("true"@) == "true"@);
    assert(!ascii_digit("true"@[0]));
    assert(int_value("true"@) is Error);
    lemma_prop_value_error(ParserView::new(), "int"@, at_type, rest);
}

/// A closing brace that closes nothing is an error at its own position.
pub proof fn lemma_parse_stray_close(tokens: Seq<Lexeme>)
    requires
        tokens.len() > 0,
        is_symbol(tokens[0].0, "}"@),
    ensures
        parse(tokens) == Err::<Seq<(Seq<char>, ThingView)>, ParseErrorView>(
            error_at(tokens[0].1, "Unexpected symbol: `}`"@),
        ),
{
}

/// A thing that the stream ends in is an error at the origin, which names
/// the thing.
pub proof fn lemma_parse_unclosed(
    name: Seq<char>,
    at_thing: TokenInfo,
    at_name: TokenInfo,
    at_open: TokenInfo,
)
    ensures
        parse(
            seq![
                (TokenView { kind: TokenKind::Word, literal: "thing"@ }, at_thing),
                (TokenView { kind: TokenKind::String, literal: name }, at_name),
                (TokenView { kind: TokenKind::Symbol, literal: "{"@ }, at_open),
            ],
        ) == Err::<Seq<(Seq<char>, ThingView)>, ParseErrorView>(
            error_at(
                TokenInfo { line: 0, col: 0 },
                "Token `"@ + unquoted(name) + "` is missing a closing brace `}`"@,
            ),
        ),
{
    let tokens = seq![
        (TokenView { kind: TokenKind::Word, literal: "thing"@ }, at_thing),
        (TokenView { kind: TokenKind::String, literal: name }, at_name),
        (TokenView { kind: TokenKind::Symbol, literal: "{"@ }, at_open),
    ];
    let opened = ParserView::new().open(unquoted(name));
    reveal_with_fuel(parse_from, 2);
    let rest = tokens.skip(1);
    assert(rest[0] == tokens[1] && rest[1] == tokens[2]);
    assert(token_step(ParserView::new(), tokens[0].0, at_thing, rest) == Ok::<
        ParserView,
        ParseErrorView,
    >(opened));
    assert(token_taken(tokens[0].0, rest) == 2);
    assert(tokens.skip(3).len() == 0);
    assert(opened.thing_stack.last() == ThingView::new(unquoted(name)));
}

impl ParserView {
    /// Whether the roots and the open things are all well formed.
    pub open spec fn well_formed(self) -> bool {
        &&& well_formed_things(self.things)
        &&& forall|i: int|
            0 <= i < self.thing_stack.len() ==> (#[trigger] self.thing_stack[i]).well_formed()
    }
}

/// A step of the parse leaves the state well formed.
pub proof fn lemma_step_well_formed(
    state: ParserView,
    token: TokenView,
    at: TokenInfo,
    rest: Seq<Lexeme>,
)
    requires
        state.well_formed(),
    ensures
        match token_step(state, token, at, rest) {
            Ok(next) => next.well_formed(),
            Err(error) => true,
        },
{
    match token_step(state, token, at, rest) {
        Ok(next) => {
            if is_word(token, "thing"@) {
                ThingView::lemma_new_well_formed(unquoted(rest[0].0.literal));
            } else if token.kind == TokenKind::Word {
                let prop = PropView {
                    name: rest[0].0.literal,
                    value: typed_value(token.literal, rest[2].0.literal),
                };
                state.thing_stack.last().lemma_with_prop_well_formed(prop);
            } else {
                let thing = state.thing_stack.last();
                let around = state.thing_stack.drop_last();
                if around.len() > 0 {
                    assert(around.last() == state.thing_stack[around.len() - 1]);
                    around.last().lemma_with_thing_well_formed(thing);
                    assert forall|i: int| 0 <= i < next.thing_stack.len() implies (
                    #[trigger] next.thing_stack[i]).well_formed() by {
                        if i < around.len() - 1 {
                            assert(next.thing_stack[i] == state.thing_stack[i]);
                        }
                    }
                } else {
                    lemma_put_well_formed(state.things, thing);
                }
            }
        },
        Err(error) => {},
    }
}

/// Parsing from a well-formed state leads to a well-formed forest.
pub proof fn lemma_parse_from_well_formed(state: ParserView, tokens: Seq<Lexeme>)
    requires
        state.well_formed(),
    ensures
        match parse_from(state, tokens) {
            Ok(forest) => well_formed_things(forest),
            Err(error) => true,
        },
    decreases tokens.len(),
{
    if tokens.len() > 0 {
        lemma_step_well_formed(state, tokens[0].0, tokens[0].1, tokens.skip(1));
        match token_step(state, tokens[0].0, tokens[0].1, tokens.skip(1)) {
            Ok(next) => {
                lemma_parse_from_well_formed(
                    next,
                    tokens.skip(1 + token_taken(tokens[0].0, tokens.skip(1)) as int),
                );
            },
            Err(error) => {},
        }
    }
}

impl ParserView {
    /// Whether every prop of the roots and of the open things has a value.
    pub open spec fn valued(self) -> bool {
        &&& valued_things(self.things)
        &&& forall|i: int|
            0 <= i < self.thing_stack.len() ==> (#[trigger] self.thing_stack[i]).valued()
    }
}

/// A step of the parse puts no prop without a value.
pub proof fn lemma_step_valued(state: ParserView, token: TokenView, at: TokenInfo, rest: Seq<Lexeme>)
    requires
        state.valued(),
    ensures
        match token_step(state, token, at, rest) {
            Ok(next) => next.valued(),
            Err(error) => true,
        },
{
    match token_step(state, token, at, rest) {
        Ok(next) => {
            if is_word(token, "thing"@) {
            } else if token.kind == TokenKind::Word {
                let prop = PropView {
                    name: rest[0].0.literal,
                    value: typed_value(token.literal, rest[2].0.literal),
                };
                state.thing_stack.last().lemma_with_prop_valued(prop);
            } else {
                let thing = state.thing_stack.last();
                let around = state.thing_stack.drop_last();
                if around.len() > 0 {
                    assert(around.last() == state.thing_stack[around.len() - 1]);
                    lemma_put_valued(around.last().things, thing);
                    assert forall|i: int| 0 <= i < next.thing_stack.len() implies (
                    #[trigger] next.thing_stack[i]).valued() by {
                        if i < around.len() - 1 {
                            assert(next.thing_stack[i] == state.thing_stack[i]);
                        }
                    }
                } else {
                    lemma_put_valued(state.things, thing);
                }
            }
        },
        Err(error) => {},
    }
}

/// Parsing from a state in which every prop has a value leads to a forest in
/// which every prop has one.
pub proof fn lemma_parse_from_valued(state: ParserView, tokens: Seq<Lexeme>)
    requires
        state.valued(),
    ensures
        match parse_from(state, tokens) {
            Ok(forest) => valued_things(forest),
            Err(error) => true,
        },
    decreases tokens.len(),
{
    if tokens.len() > 0 {
        lemma_step_valued(state, tokens[0].0, tokens[0].1, tokens.skip(1));
        match token_step(state, tokens[0].0, tokens[0].1, tokens.skip(1)) {
            Ok(next) => {
                lemma_parse_from_valued(
                    next,
                    tokens.skip(1 + token_taken(tokens[0].0, tokens.skip(1)) as int),
                );
            },
            Err(error) => {},
        }
    }
}

/// Parsing is strict: in every forest that it yields each prop has a value,
/// since a literal that does not fit its type ends the parse.
pub proof fn lemma_parse_valued(tokens: Seq<Lexeme>)
    ensures
        match parse(tokens) {
            Ok(forest) => valued_things(forest),
            Err(error) => true,
        },
{
    lemma_parse_from_valued(ParserView::new(), tokens);
}

/// The value of a literal is of the type that the type word names, or none:
/// an `int` is an integer, a `float` a float, a `bool` a boolean, and a
/// `string` a string.
pub proof fn lemma_typed_value(type_word: Seq<char>, literal: Seq<char>)
    requires
        is_type_word(type_word),
    ensures
        type_word == "int"@ ==> typed_value(type_word, literal) is Int || typed_value(
            type_word,
            literal,
        ) is Error,
        type_word == "float"@ ==> typed_value(type_word, literal) is Float || typed_value(
            type_word,
            literal,
        ) is Error,
        type_word == "bool"@ ==> typed_value(type_word, literal) is Bool || typed_value(
            type_word,
            literal,
        ) is Error,
        type_word == "string"@ ==> typed_value(type_word, literal) is String,
{
    reveal_strlit("int");
    reveal_strlit("float");
    reveal_strlit("bool");
    reveal_strlit("string");
    assert("int"@.len() == 3 && "float"@.len() == 5 && "bool"@.len() == 4 && "string"@.len() == 6);
}

/// Every forest that parsing yields is well formed: among the roots, and among
/// the things below any one thing, no name occurs twice, and each thing stands
/// under its own name; the same holds of the props of each thing.
pub proof fn lemma_parse_well_formed(tokens: Seq<Lexeme>)
    ensures
        match parse(tokens) {
            Ok(forest) => well_formed_things(forest),
            Err(error) => true,
        },
{
    lemma_parse_from_well_formed(ParserView::new(), tokens);
}

/// A parse error as one line of text.
pub open spec fn error_text(error: ParseErrorView) -> Seq<char> {
    "line "@ + decimal_text(error.token_info.line as nat) + ":"@ + decimal_text(
        error.token_info.col as nat,
    ) + " - "@ + error.message
}

/// Writes a parse error as one line: the word `line`, the line and the column
/// of the token as they were counted, from zero, and the message.
pub fn make_err_string(err: &ParseError) -> (text: String)
    ensures
        text@ == error_text(err@),
{
    let mut text = String::from_str("line ");
    push_decimal(&mut text, err.token_info.line as u64);
    text.append(":");
    push_decimal(&mut text, err.token_info.col as u64);
    text.append(" - ");
    text.append(err.message.as_str());
    text
}

} // verus!
