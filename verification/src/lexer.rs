//! The lexer: the matchers tried in order at the cursor, token by token.
//!
//! What the lexer gives is stated twice: for any list of matchers, by
//! `lexed`, and for the matchers of the language without naming them, by
//! `standard_lexed`. Both read the characters and their classes; neither
//! asks the standard library anything.

use vstd::prelude::*;
use crate::error::LexError;
use crate::matcher::{
    constant_recognised, key_recognised, outcome_of, texts, AnyMatcher, ConstantMatcher,
    FloatLiteralMatcher, IdentifierMatcher, IntLiteralMatcher, KeyMatcher, Matcher, Recognised,
    StringLiteralMatcher, WhitespaceMatcher,
};
use crate::text::{chars_of, classes_of, classify_all, CharClass};
use crate::token::{tokens_view, Token, TokenPosition, TokenType, TokenView};
use crate::tokenizer::{end_of_stream, position_at, Tokenizer};

verus! {

/// What the first of `matchers`, from the one at `from` on, that finds
/// anything finds in `items` at `at`.
pub open spec fn first_recognised(
    matchers: Seq<AnyMatcher>,
    items: Seq<char>,
    classes: Seq<CharClass>,
    at: int,
    from: int,
) -> Recognised
    decreases matchers.len() - from,
{
    if from < 0 || from >= matchers.len() {
        Recognised::Nothing
    } else {
        match matchers[from].recognise(items, classes, at) {
            Recognised::Nothing => first_recognised(matchers, items, classes, at, from + 1),
            found => found,
        }
    }
}

/// A token that the matchers find holds at least one character and ends
/// within the text.
pub proof fn lemma_first_recognised_is_within(
    matchers: Seq<AnyMatcher>,
    items: Seq<char>,
    classes: Seq<CharClass>,
    at: int,
    from: int,
)
    requires
        0 <= at < items.len(),
        0 <= from,
    ensures
        first_recognised(matchers, items, classes, at, from) matches Recognised::Found {
            end,
            ..
        } ==> at < end <= items.len(),
    decreases matchers.len() - from,
{
    if from < matchers.len() {
        matchers[from].lemma_found_is_within(items, classes, at);
        lemma_first_recognised_is_within(matchers, items, classes, at, from + 1);
    }
}

/// What comes next in the text: nothing more, a literal that cannot be
/// read, or a token.
pub enum Step {
    /// The text is at its end, or holds a character there that no matcher
    /// takes.
    Stop,
    /// A literal starts there that cannot be read.
    Fail { message: Seq<char>, position: TokenPosition },
    /// A token, and the place behind it.
    Take { token: TokenView, end: int },
}

/// The next token in `items` at or after `at` that is no white space.
pub open spec fn next_step(
    matchers: Seq<AnyMatcher>,
    items: Seq<char>,
    classes: Seq<CharClass>,
    at: int,
) -> Step
    decreases items.len() - at,
{
    if at < 0 || at >= items.len() {
        Step::Stop
    } else {
        match first_recognised(matchers, items, classes, at, 0) {
            Recognised::Nothing => Step::Stop,
            Recognised::Malformed { message } => Step::Fail {
                message,
                position: position_at(items, at),
            },
            Recognised::Found { token_type, content, end } => if token_type
                == TokenType::Whitespace {
                if at < end <= items.len() {
                    next_step(matchers, items, classes, end)
                } else {
                    Step::Stop
                }
            } else {
                Step::Take {
                    token: TokenView { token_type, position: position_at(items, at), content },
                    end,
                }
            },
        }
    }
}

/// A token taken ends behind the place from which it was looked for, within
/// the text.
pub proof fn lemma_next_step_is_within(
    matchers: Seq<AnyMatcher>,
    items: Seq<char>,
    classes: Seq<CharClass>,
    at: int,
)
    requires
        0 <= at,
    ensures
        next_step(matchers, items, classes, at) matches Step::Take { end, .. } ==> at < end
            <= items.len(),
    decreases items.len() - at,
{
    if at < items.len() {
        lemma_first_recognised_is_within(matchers, items, classes, at, 0);
        match first_recognised(matchers, items, classes, at, 0) {
            Recognised::Found { token_type, content, end } => {
                if token_type == TokenType::Whitespace {
                    lemma_next_step_is_within(matchers, items, classes, end);
                }
            },
            _ => {},
        }
    }
}

/// What lexing gives: the tokens, or the message and position of the
/// literal that cannot be read.
pub type Lexed = Result<Seq<TokenView>, (Seq<char>, TokenPosition)>;

/// The tokens of `items` from `at` on, behind `tokens`: every token that is
/// no white space, up to the end of the text or to the first character that
/// no matcher takes.
pub open spec fn lexed(
    matchers: Seq<AnyMatcher>,
    items: Seq<char>,
    classes: Seq<CharClass>,
    at: int,
    tokens: Seq<TokenView>,
) -> Lexed
    decreases items.len() - at,
{
    match next_step(matchers, items, classes, at) {
        Step::Stop => Ok(tokens),
        Step::Fail { message, position } => Err((message, position)),
        Step::Take { token, end } => if at < end <= items.len() {
            lexed(matchers, items, classes, end, tokens.push(token))
        } else {
            Ok(tokens.push(token))
        },
    }
}

/// The text that ends a line.
pub open spec fn eol_texts() -> Seq<Seq<char>> {
    seq!["\n"@]
}

/// The texts that indent a line.
pub open spec fn indent_texts() -> Seq<Seq<char>> {
    seq!["  "@, "\t"@]
}

/// The operators, in the order in which they are tried.
pub open spec fn operator_texts() -> Seq<Seq<char>> {
    seq![
        "++"@,
        "+"@,
        "-"@,
        "*"@,
        "/"@,
        "/"@,
        "%"@,
        "^"@,
        ">="@,
        "<="@,
        "=="@,
        "~="@,
        "."@,
        "<|"@,
        "|>"@,
        ">"@,
        "<"@,
    ]
}

/// The symbols, in the order in which they are tried.
pub open spec fn symbol_texts() -> Seq<Seq<char>> {
    seq!["("@, ")"@, "["@, "]"@, ","@, ":"@, ";"@, "{"@, "}"@, "!"@, "|"@, "="@, "!"@]
}

/// The two boolean words.
pub open spec fn boolean_texts() -> Seq<Seq<char>> {
    seq!["true"@, "false"@]
}

/// Whether `m` recognises the fixed texts `list` as tokens of kind
/// `token_type`.
pub open spec fn is_constant_matcher(m: AnyMatcher, token_type: TokenType, list: Seq<Seq<char>>)
    -> bool {
    m matches AnyMatcher::Constant(c) && c.token_type == token_type && texts(c.constants@) == list
}

/// Whether `m` recognises the words `list` as tokens of kind `token_type`.
pub open spec fn is_key_matcher(m: AnyMatcher, token_type: TokenType, list: Seq<Seq<char>>)
    -> bool {
    m matches AnyMatcher::Key(c) && c.token_type == token_type && texts(c.constants@) == list
}

/// The matchers of the language, in their fixed order: end of line,
/// indentation, white space, operator, symbol, number, integer, string or
/// char literal, boolean word, name.
pub open spec fn standard_matchers(matchers: Seq<AnyMatcher>) -> bool {
    &&& matchers.len() == 10
    &&& is_constant_matcher(matchers[0], TokenType::EOL, eol_texts())
    &&& is_constant_matcher(matchers[1], TokenType::Indent, indent_texts())
    &&& matchers[2] is Whitespace
    &&& is_constant_matcher(matchers[3], TokenType::Operator, operator_texts())
    &&& is_constant_matcher(matchers[4], TokenType::Symbol, symbol_texts())
    &&& matchers[5] is FloatLiteral
    &&& matchers[6] is IntLiteral
    &&& matchers[7] is StringLiteral
    &&& is_key_matcher(matchers[8], TokenType::BoolLiteral, boolean_texts())
    &&& matchers[9] is Identifier
}

/// The first of two findings that is one.
pub open spec fn or_else(first: Recognised, second: Recognised) -> Recognised {
    if first is Nothing {
        second
    } else {
        first
    }
}

/// What the matchers of the language find in `items` at `at`: what the
/// first of them that finds anything finds, in their fixed order.
pub open spec fn standard_recognised(items: Seq<char>, classes: Seq<CharClass>, at: int)
    -> Recognised {
    or_else(
        constant_recognised(TokenType::EOL, eol_texts(), items, at),
        or_else(
            constant_recognised(TokenType::Indent, indent_texts(), items, at),
            or_else(
                WhitespaceMatcher.recognise(items, classes, at),
                or_else(
                    constant_recognised(TokenType::Operator, operator_texts(), items, at),
                    or_else(
                        constant_recognised(TokenType::Symbol, symbol_texts(), items, at),
                        or_else(
                            FloatLiteralMatcher.recognise(items, classes, at),
                            or_else(
                                (IntLiteralMatcher {  }).recognise(items, classes, at),
                                or_else(
                                    (StringLiteralMatcher {  }).recognise(items, classes, at),
                                    or_else(
                                        key_recognised(
                                            TokenType::BoolLiteral,
                                            boolean_texts(),
                                            items,
                                            classes,
                                            at,
                                        ),
                                        IdentifierMatcher.recognise(items, classes, at),
                                    ),
                                ),
                            ),
                        ),
                    ),
                ),
            ),
        ),
    )
}

/// The next token of the language in `items` at or after `at` that is no
/// white space.
pub open spec fn standard_step(items: Seq<char>, classes: Seq<CharClass>, at: int) -> Step
    decreases items.len() - at,
{
    if at < 0 || at >= items.len() {
        Step::Stop
    } else {
        match standard_recognised(items, classes, at) {
            Recognised::Nothing => Step::Stop,
            Recognised::Malformed { message } => Step::Fail {
                message,
                position: position_at(items, at),
            },
            Recognised::Found { token_type, content, end } => if token_type
                == TokenType::Whitespace {
                if at < end <= items.len() {
                    standard_step(items, classes, end)
                } else {
                    Step::Stop
                }
            } else {
                Step::Take {
                    token: TokenView { token_type, position: position_at(items, at), content },
                    end,
                }
            },
        }
    }
}

/// The tokens of the language in `items` from `at` on, behind `tokens`:
/// every token that is no white space, up to the end of the text or to the
/// first character that no matcher takes.
pub open spec fn standard_lexed(
    items: Seq<char>,
    classes: Seq<CharClass>,
    at: int,
    tokens: Seq<TokenView>,
) -> Lexed
    decreases items.len() - at,
{
    match standard_step(items, classes, at) {
        Step::Stop => Ok(tokens),
        Step::Fail { message, position } => Err((message, position)),
        Step::Take { token, end } => if at < end <= items.len() {
            standard_lexed(items, classes, end, tokens.push(token))
        } else {
            Ok(tokens.push(token))
        },
    }
}

/// The matchers of the language find what `standard_recognised` says.
pub proof fn lemma_standard_recognised(
    matchers: Seq<AnyMatcher>,
    items: Seq<char>,
    classes: Seq<CharClass>,
    at: int,
)
    requires
        standard_matchers(matchers),
    ensures
        first_recognised(matchers, items, classes, at, 0) == standard_recognised(
            items,
            classes,
            at,
        ),
{
    reveal_with_fuel(first_recognised, 11);
}

/// With the matchers of the language, the next token is what
/// `standard_step` says.
pub proof fn lemma_standard_step(
    matchers: Seq<AnyMatcher>,
    items: Seq<char>,
    classes: Seq<CharClass>,
    at: int,
)
    requires
        standard_matchers(matchers),
    ensures
        next_step(matchers, items, classes, at) == standard_step(items, classes, at),
    decreases items.len() - at,
{
    if 0 <= at < items.len() {
        lemma_standard_recognised(matchers, items, classes, at);
        match standard_recognised(items, classes, at) {
            Recognised::Found { token_type, content, end } => {
                if token_type == TokenType::Whitespace && at < end <= items.len() {
                    lemma_standard_step(matchers, items, classes, end);
                }
            },
            _ => {},
        }
    }
}

/// With the matchers of the language, the tokens are what `standard_lexed`
/// says.
pub proof fn lemma_standard_lexed(
    matchers: Seq<AnyMatcher>,
    items: Seq<char>,
    classes: Seq<CharClass>,
    at: int,
    tokens: Seq<TokenView>,
)
    requires
        standard_matchers(matchers),
    ensures
        lexed(matchers, items, classes, at, tokens) == standard_lexed(items, classes, at, tokens),
    decreases items.len() - at,
{
    lemma_standard_step(matchers, items, classes, at);
    match standard_step(items, classes, at) {
        Step::Take { token, end } => {
            if at < end <= items.len() {
                lemma_standard_lexed(matchers, items, classes, end, tokens.push(token));
            }
        },
        _ => {},
    }
}

/// Owned copies of a list of texts.
fn owned(list: Vec<&'static str>) -> (r: Vec<String>)
    ensures
        r@.len() == list@.len(),
        forall|i: int| 0 <= i < list@.len() ==> (#[trigger] r@[i])@ == list@[i]@,
{
    let mut r: Vec<String> = Vec::new();
    let mut i: usize = 0;
    while i < list.len()
        invariant
            i <= list.len(),
            r@.len() == i,
            forall|k: int| 0 <= k < i ==> (#[trigger] r@[k])@ == list@[k]@,
        decreases list.len() - i,
    {
        r.push(String::from_str(list[i]));
        i += 1;
    }
    r
}

/// A lexer for `source` with the matchers of the language. Each character
/// gets its class as the standard library decides it; from there on the
/// lexer is that of `classified_lexer`.
pub fn lexer(source: &str) -> (l: Lexer)
    requires
        source@.len() < usize::MAX,
    ensures
        l.tokenizer.wf(),
        l.tokenizer.items@ == source@,
        l.tokenizer.classes@ == classes_of(source@),
        l.tokenizer.index == 0,
        l.tokenizer.snapshots@.len() == 0,
        standard_matchers(l.matchers@),
{
    let items = chars_of(source);
    let classes = classify_all(&items);
    classified_lexer(items, classes)
}

/// A lexer for the characters `items`, whose classes are `classes`, with
/// the matchers of the language.
pub fn classified_lexer(items: Vec<char>, classes: Vec<CharClass>) -> (l: Lexer)
    requires
        items@.len() < usize::MAX,
        classes@.len() == items@.len(),
    ensures
        l.tokenizer.wf(),
        l.tokenizer.items == items,
        l.tokenizer.classes == classes,
        l.tokenizer.index == 0,
        l.tokenizer.snapshots@.len() == 0,
        standard_matchers(l.matchers@),
{
    let tokenizer = Tokenizer::classified(items, classes);
    let mut lexer = Lexer::new(tokenizer);

    let eol = owned(vec!["\n"]);
    assert(texts(eol@) =~= eol_texts());

    let symbols = owned(vec!["(", ")", "[", "]", ",", ":", ";", "{", "}", "!", "|", "=", "!"]);
    assert(texts(symbols@) =~= symbol_texts());

    let operators = owned(
        vec![
            "++",
            "+",
            "-",
            "*",
            "/",
            "/",
            "%",
            "^",
            ">=",
            "<=",
            "==",
            "~=",
            ".",
            "<|",
            "|>",
            ">",
            "<",
        ],
    );
    assert(texts(operators@) =~= operator_texts());

    let indent = owned(vec!["  ", "\t"]);
    assert(texts(indent@) =~= indent_texts());

    let boolean = owned(vec!["true", "false"]);
    assert(texts(boolean@) =~= boolean_texts());

    let matcher_eol = ConstantMatcher::new(TokenType::EOL, eol);
    let matcher_indent = ConstantMatcher::new(TokenType::Indent, indent);
    let matcher_operator = ConstantMatcher::new(TokenType::Operator, operators);
    let matcher_symbol = ConstantMatcher::new(TokenType::Symbol, symbols);
    let matcher_boolean = KeyMatcher::new(TokenType::BoolLiteral, boolean);
    let matcher_whitespace = WhitespaceMatcher {  };
    let matcher_int_literal = IntLiteralMatcher {  };
    let matcher_float_literal = FloatLiteralMatcher {  };
    let matcher_identifier = IdentifierMatcher {  };
    let matcher_string_literal = StringLiteralMatcher {  };

    lexer.matchers.push(AnyMatcher::Constant(matcher_eol));
    lexer.matchers.push(AnyMatcher::Constant(matcher_indent));
    lexer.matchers.push(AnyMatcher::Whitespace(matcher_whitespace));
    lexer.matchers.push(AnyMatcher::Constant(matcher_operator));
    lexer.matchers.push(AnyMatcher::Constant(matcher_symbol));
    lexer.matchers.push(AnyMatcher::FloatLiteral(matcher_float_literal));
    lexer.matchers.push(AnyMatcher::IntLiteral(matcher_int_literal));
    lexer.matchers.push(AnyMatcher::StringLiteral(matcher_string_literal));
    lexer.matchers.push(AnyMatcher::Key(matcher_boolean));
    lexer.matchers.push(AnyMatcher::Identifier(matcher_identifier));
    lexer
}

/// Whether a result is what lexing gives.
pub open spec fn lexes_to(r: Result<Vec<Token>, LexError>, outcome: Lexed) -> bool {
    match outcome {
        Ok(tokens) => r matches Ok(v) && tokens_view(v@) == tokens,
        Err((message, position)) => r matches Err(e) && e.message() == message && e.position
            == Some(position),
    }
}

/// The tokens of the characters `items`, whose classes are `classes`, by
/// the matchers of the language.
pub fn lex_classified(items: Vec<char>, classes: Vec<CharClass>) -> (r: Result<
    Vec<Token>,
    LexError,
>)
    requires
        items@.len() < usize::MAX,
        classes@.len() == items@.len(),
    ensures
        lexes_to(r, standard_lexed(items@, classes@, 0, Seq::empty())),
{
    let mut lexer = classified_lexer(items, classes);
    proof {
        lemma_standard_lexed(lexer.matchers@, items@, classes@, 0, Seq::empty());
    }
    lexer.tokens()
}

/// A cursor over the text and the matchers, in the order in which they are
/// tried.
pub struct Lexer {
    pub tokenizer: Tokenizer,
    pub matchers: Vec<AnyMatcher>,
}

impl Lexer {
    /// Whether the cursor stands where that of `before` stands.
    pub open spec fn stands_as(&self, before: &Lexer) -> bool {
        self.tokenizer.stands_as(&before.tokenizer)
    }

    /// A lexer without matchers.
    pub fn new(tokenizer: Tokenizer) -> (l: Lexer)
        ensures
            l.tokenizer == tokenizer,
            l.matchers@.len() == 0,
    {
        Lexer { tokenizer, matchers: Vec::new() }
    }

    /// Tries the matchers in order at the cursor and gives the token of the
    /// first that finds one. Without a matcher there is none. At the end of
    /// the text the token is the end-of-stream token. Where no matcher
    /// finds a token, or one finds a malformed literal, the cursor stays.
    pub fn match_token(&mut self) -> (r: Result<Option<Token>, LexError>)
        requires
            old(self).tokenizer.wf(),
        ensures
            final(self).tokenizer.wf(),
            final(self).tokenizer.items == old(self).tokenizer.items,
            final(self).tokenizer.classes == old(self).tokenizer.classes,
            final(self).tokenizer.snapshots@ == old(self).tokenizer.snapshots@,
            final(self).matchers == old(self).matchers,
            old(self).matchers@.len() == 0 ==> r matches Ok(None),
            old(self).matchers@.len() > 0 && old(self).tokenizer.at_end() ==> (r matches Ok(Some(t))
                && t@ == end_of_stream(old(self).tokenizer.index)),
            old(self).matchers@.len() > 0 && !old(self).tokenizer.at_end() ==> outcome_of(
                r,
                first_recognised(
                    old(self).matchers@,
                    old(self).tokenizer.items@,
                    old(self).tokenizer.classes@,
                    old(self).tokenizer.index as int,
                    0,
                ),
                old(self).tokenizer.pos,
                final(self).tokenizer.index as int,
            ),
            (r matches Ok(Some(_)) && !old(self).tokenizer.at_end()) || final(self).stands_as(
                old(self),
            ),
    {
        let mut k: usize = 0;
        while k < self.matchers.len()
            invariant
                k <= self.matchers@.len(),
                self.tokenizer.wf(),
                self.tokenizer.items == old(self).tokenizer.items,
                self.tokenizer.classes == old(self).tokenizer.classes,
                self.tokenizer.snapshots@ == old(self).tokenizer.snapshots@,
                self.tokenizer.index == old(self).tokenizer.index,
                self.tokenizer.pos == old(self).tokenizer.pos,
                self.matchers == old(self).matchers,
                self.tokenizer.index >= self.tokenizer.items@.len() ==> k == 0,
                self.tokenizer.index < self.tokenizer.items@.len() ==> first_recognised(
                    self.matchers@,
                    self.tokenizer.items@,
                    self.tokenizer.classes@,
                    self.tokenizer.index as int,
                    0,
                ) == first_recognised(
                    self.matchers@,
                    self.tokenizer.items@,
                    self.tokenizer.classes@,
                    self.tokenizer.index as int,
                    k as int,
                ),
            decreases self.matchers@.len() - k,
        {
            match self.tokenizer.try_match_token(&self.matchers[k]) {
                Ok(Some(t)) => {
                    return Ok(Some(t));
                },
                Ok(None) => {},
                Err(e) => {
                    return Err(e);
                },
            }
            k += 1;
        }
        Ok(None)
    }

    /// The matchers, in the order in which they are tried.
    pub fn matchers(&self) -> (r: &Vec<AnyMatcher>)
        ensures
            *r == self.matchers,
    {
        &self.matchers
    }

    /// The matchers, to change them.
    pub fn matchers_mut(&mut self) -> (r: &mut Vec<AnyMatcher>)
        ensures
            *r == old(self).matchers,
            final(self).matchers == *final(r),
            final(self).tokenizer == old(self).tokenizer,
    {
        &mut self.matchers
    }

    /// Gives the next token that is no white space. `None` at the end of
    /// the text and where no matcher finds a token.
    pub fn next_token(&mut self) -> (r: Result<Option<Token>, LexError>)
        requires
            old(self).tokenizer.wf(),
        ensures
            final(self).tokenizer.wf(),
            final(self).tokenizer.items == old(self).tokenizer.items,
            final(self).tokenizer.classes == old(self).tokenizer.classes,
            final(self).matchers == old(self).matchers,
            match next_step(
                old(self).matchers@,
                old(self).tokenizer.items@,
                old(self).tokenizer.classes@,
                old(self).tokenizer.index as int,
            ) {
                Step::Stop => r matches Ok(None),
                Step::Fail { message, position } => r matches Err(e) && e.message() == message
                    && e.position == Some(position),
                Step::Take { token, end } => (r matches Ok(Some(t)) && t@ == token)
                    && final(self).tokenizer.index == end,
            },
    {
        loop
            invariant
                self.tokenizer.wf(),
                self.tokenizer.items == old(self).tokenizer.items,
                self.tokenizer.classes == old(self).tokenizer.classes,
                self.matchers == old(self).matchers,
                next_step(
                    self.matchers@,
                    self.tokenizer.items@,
                    self.tokenizer.classes@,
                    self.tokenizer.index as int,
                ) == next_step(
                    old(self).matchers@,
                    old(self).tokenizer.items@,
                    old(self).tokenizer.classes@,
                    old(self).tokenizer.index as int,
                ),
            decreases self.tokenizer.items@.len() - self.tokenizer.index,
        {
            if self.matchers.len() == 0 || self.tokenizer.end() {
                return Ok(None);
            }
            proof {
                lemma_first_recognised_is_within(
                    self.matchers@,
                    self.tokenizer.items@,
                    self.tokenizer.classes@,
                    self.tokenizer.index as int,
                    0,
                );
            }
            match self.match_token() {
                Ok(Some(t)) => {
                    if t.token_type != TokenType::Whitespace {
                        return Ok(Some(t));
                    }
                },
                Ok(None) => {
                    return Ok(None);
                },
                Err(e) => {
                    return Err(e);
                },
            }
        }
    }

    /// All the tokens that are left, in order.
    pub fn tokens(&mut self) -> (r: Result<Vec<Token>, LexError>)
        requires
            old(self).tokenizer.wf(),
        ensures
            final(self).tokenizer.wf(),
            final(self).tokenizer.items == old(self).tokenizer.items,
            final(self).tokenizer.classes == old(self).tokenizer.classes,
            final(self).matchers == old(self).matchers,
            match lexed(
                old(self).matchers@,
                old(self).tokenizer.items@,
                old(self).tokenizer.classes@,
                old(self).tokenizer.index as int,
                Seq::empty(),
            ) {
                Ok(tokens) => r matches Ok(v) && tokens_view(v@) == tokens,
                Err((message, position)) => r matches Err(e) && e.message() == message
                    && e.position == Some(position),
            },
    {
        let mut tokens: Vec<Token> = Vec::new();
        assert(tokens_view(tokens@) =~= Seq::empty());
        loop
            invariant
                self.tokenizer.wf(),
                self.tokenizer.items == old(self).tokenizer.items,
                self.tokenizer.classes == old(self).tokenizer.classes,
                self.matchers == old(self).matchers,
                lexed(
                    self.matchers@,
                    self.tokenizer.items@,
                    self.tokenizer.classes@,
                    self.tokenizer.index as int,
                    tokens_view(tokens@),
                ) == lexed(
                    old(self).matchers@,
                    old(self).tokenizer.items@,
                    old(self).tokenizer.classes@,
                    old(self).tokenizer.index as int,
                    Seq::empty(),
                ),
            decreases self.tokenizer.items@.len() - self.tokenizer.index,
        {
            proof {
                lemma_next_step_is_within(
                    self.matchers@,
                    self.tokenizer.items@,
                    self.tokenizer.classes@,
                    self.tokenizer.index as int,
                );
            }
            match self.next_token() {
                Ok(Some(t)) => {
                    assert(tokens_view(tokens@.push(t)) =~= tokens_view(tokens@).push(t@));
                    tokens.push(t);
                },
                Ok(None) => {
                    return Ok(tokens);
                },
                Err(e) => {
                    return Err(e);
                },
            }
        }
    }
}

} // verus!
