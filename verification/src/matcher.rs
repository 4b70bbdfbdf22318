//! The strategies by which the lexer recognises a token.

use vstd::prelude::*;
use crate::error::LexError;
use crate::text::{
    chars_of, decimal, decimal_text, decimal_value, digit_char, is_digit, is_numeral,
    lemma_numeral_is_canonical, push_char, read_decimal, string_of, CharClass,
};
use crate::token::{Token, TokenPosition, TokenType};
use crate::tokenizer::Tokenizer;

verus! {

/// What a matcher finds at a place in the text.
pub enum Recognised {
    /// No token of the matcher's kind starts there.
    Nothing,
    /// A token that ends before the character at `end`.
    Found { token_type: TokenType, content: Seq<char>, end: int },
    /// A literal starts there that cannot be read.
    Malformed { message: Seq<char> },
}

/// Whether `r`, with the cursor at `end` afterwards, is the outcome that
/// `found` stands for, of a token that starts at `start`.
pub open spec fn outcome_of(
    r: Result<Option<Token>, LexError>,
    found: Recognised,
    start: TokenPosition,
    end: int,
) -> bool {
    match found {
        Recognised::Nothing => r matches Ok(None),
        Recognised::Found { token_type, content, end: e } => (r matches Ok(Some(t))
            && t.token_type == token_type && t.content@ == content && t.position == start) && end
            == e,
        Recognised::Malformed { message } => r matches Err(e) && e.message() == message
            && e.position == Some(start),
    }
}

/// A strategy that recognises the tokens of one kind.
pub trait Matcher {
    /// What the matcher finds in `items` at `at`.
    spec fn recognise(&self, items: Seq<char>, classes: Seq<CharClass>, at: int) -> Recognised;

    /// A token holds at least one character and ends within the text.
    proof fn lemma_found_is_within(&self, items: Seq<char>, classes: Seq<CharClass>, at: int)
        requires
            0 <= at < items.len(),
        ensures
            self.recognise(items, classes, at) matches Recognised::Found { end, .. } ==> at < end
                <= items.len(),
    ;

    /// Tries to read a token at the cursor. A token found starts at the
    /// newest checkpoint and the cursor stands behind it. Where none is
    /// found the cursor may have moved.
    fn try_match(&self, tokenizer: &mut Tokenizer) -> (r: Result<Option<Token>, LexError>)
        requires
            old(tokenizer).wf(),
            old(tokenizer).index < old(tokenizer).items@.len(),
            old(tokenizer).snapshots@.len() > 0,
        ensures
            final(tokenizer).wf(),
            final(tokenizer).items == old(tokenizer).items,
            final(tokenizer).classes == old(tokenizer).classes,
            final(tokenizer).snapshots == old(tokenizer).snapshots,
            outcome_of(
                r,
                self.recognise(
                    old(tokenizer).items@,
                    old(tokenizer).classes@,
                    old(tokenizer).index as int,
                ),
                old(tokenizer).snapshots@.last().pos,
                final(tokenizer).index as int,
            ),
    ;
}


/// Whether `text` stands in `items` at `at`.
pub open spec fn starts_with(items: Seq<char>, at: int, text: Seq<char>) -> bool {
    0 <= at && at + text.len() <= items.len() && items.subrange(at, at + text.len()) == text
}

/// Whether `text` stands in `items` at `at`.
pub fn text_starts_at(items: &Vec<char>, at: usize, text: &Vec<char>) -> (r: bool)
    requires
        at <= items.len(),
    ensures
        r == starts_with(items@, at as int, text@),
{
    if text.len() > items.len() - at {
        return false;
    }
    let mut j: usize = 0;
    while j < text.len()
        invariant
            j <= text.len(),
            at + text.len() <= items.len(),
            items@.subrange(at as int, at + j) == text@.subrange(0, j as int),
        decreases text.len() - j,
    {
        if items[at + j] != text[j] {
            assert(items@.subrange(at as int, at + text.len())[j as int] != text@[j as int]);
            return false;
        }
        assert(items@.subrange(at as int, at + j + 1) == items@.subrange(at as int, at + j).push(
            items@[at + j],
        ));
        assert(text@.subrange(0, j + 1) == text@.subrange(0, j as int).push(text@[j as int]));
        j += 1;
    }
    assert(text@.subrange(0, text.len() as int) == text@);
    true
}

/// The first place at or after `at` that holds no white space.
pub open spec fn whitespace_end(items: Seq<char>, classes: Seq<CharClass>, at: int) -> int
    decreases items.len() - at,
{
    if 0 <= at < items.len() && classes[at].whitespace {
        whitespace_end(items, classes, at + 1)
    } else {
        at
    }
}

/// Whether a name may hold `c`: a letter or digit, an underscore, a
/// question mark or an apostrophe.
pub open spec fn is_identifier_char(c: char, class: CharClass) -> bool {
    !class.whitespace && (c == '_' || c == '?' || c == '\'' || class.alphanumeric)
}

/// The first place at or after `at` that holds nothing a name may hold.
pub open spec fn identifier_end(items: Seq<char>, classes: Seq<CharClass>, at: int) -> int
    decreases items.len() - at,
{
    if 0 <= at < items.len() && is_identifier_char(items[at], classes[at]) {
        identifier_end(items, classes, at + 1)
    } else {
        at
    }
}

/// The first place at or after `at` that holds no digit.
pub open spec fn digits_end(items: Seq<char>, at: int) -> int
    decreases items.len() - at,
{
    if 0 <= at < items.len() && is_digit(items[at]) {
        digits_end(items, at + 1)
    } else {
        at
    }
}

/// Whether `c` is a digit or a decimal point.
pub open spec fn is_number_char(c: char) -> bool {
    is_digit(c) || c == '.'
}

/// The first place at or after `at` that holds neither a digit nor a
/// decimal point.
pub open spec fn number_end(items: Seq<char>, at: int) -> int
    decreases items.len() - at,
{
    if 0 <= at < items.len() && is_number_char(items[at]) {
        number_end(items, at + 1)
    } else {
        at
    }
}

/// A run of white space ends at or behind the place where it starts, within
/// the text.
pub proof fn lemma_whitespace_end_bounds(items: Seq<char>, classes: Seq<CharClass>, at: int)
    requires
        0 <= at <= items.len(),
    ensures
        at <= whitespace_end(items, classes, at) <= items.len(),
    decreases items.len() - at,
{
    if at < items.len() && classes[at].whitespace {
        lemma_whitespace_end_bounds(items, classes, at + 1);
    }
}

/// A name ends at or behind the place where it starts, within the text.
pub proof fn lemma_identifier_end_bounds(items: Seq<char>, classes: Seq<CharClass>, at: int)
    requires
        0 <= at <= items.len(),
    ensures
        at <= identifier_end(items, classes, at) <= items.len(),
    decreases items.len() - at,
{
    if at < items.len() && is_identifier_char(items[at], classes[at]) {
        lemma_identifier_end_bounds(items, classes, at + 1);
    }
}

/// A run of digits ends at or behind the place where it starts, within the
/// text.
pub proof fn lemma_digits_end_bounds(items: Seq<char>, at: int)
    requires
        0 <= at <= items.len(),
    ensures
        at <= digits_end(items, at) <= items.len(),
    decreases items.len() - at,
{
    if at < items.len() && is_digit(items[at]) {
        lemma_digits_end_bounds(items, at + 1);
    }
}

/// A run of digits and decimal points ends at or behind the place where it
/// starts, within the text.
pub proof fn lemma_number_end_bounds(items: Seq<char>, at: int)
    requires
        0 <= at <= items.len(),
    ensures
        at <= number_end(items, at) <= items.len(),
    decreases items.len() - at,
{
    if at < items.len() && is_number_char(items[at]) {
        lemma_number_end_bounds(items, at + 1);
    }
}

/// Recognises a run of white space. The token holds no text.
pub struct WhitespaceMatcher;

impl Matcher for WhitespaceMatcher {
    open spec fn recognise(&self, items: Seq<char>, classes: Seq<CharClass>, at: int)
        -> Recognised {
        if whitespace_end(items, classes, at) > at {
            Recognised::Found {
                token_type: TokenType::Whitespace,
                content: Seq::empty(),
                end: whitespace_end(items, classes, at),
            }
        } else {
            Recognised::Nothing
        }
    }

    proof fn lemma_found_is_within(&self, items: Seq<char>, classes: Seq<CharClass>, at: int) {
        lemma_whitespace_end_bounds(items, classes, at);
    }

    fn try_match(&self, tokenizer: &mut Tokenizer) -> (r: Result<Option<Token>, LexError>) {
        let start = tokenizer.index;
        while tokenizer.index < tokenizer.items.len()
            && tokenizer.classes[tokenizer.index].whitespace
            invariant
                tokenizer.wf(),
                tokenizer.items == old(tokenizer).items,
                tokenizer.classes == old(tokenizer).classes,
                tokenizer.snapshots == old(tokenizer).snapshots,
                start <= tokenizer.index,
                whitespace_end(tokenizer.items@, tokenizer.classes@, tokenizer.index as int)
                    == whitespace_end(tokenizer.items@, tokenizer.classes@, start as int),
            decreases tokenizer.items@.len() - tokenizer.index,
        {
            tokenizer.advance(1);
        }
        if tokenizer.index > start {
            Ok(Some(Token::new(TokenType::Whitespace, tokenizer.last_position(), String::new())))
        } else {
            Ok(None)
        }
    }
}

/// Recognises a name: the longest run of characters that a name may hold.
pub struct IdentifierMatcher;

/// Whether a name may hold `c`.
fn identifier_char(c: char, class: CharClass) -> (r: bool)
    ensures
        r == is_identifier_char(c, class),
{
    !class.whitespace && (c == '_' || c == '?' || c == '\'' || class.alphanumeric)
}

impl Matcher for IdentifierMatcher {
    open spec fn recognise(&self, items: Seq<char>, classes: Seq<CharClass>, at: int)
        -> Recognised {
        if identifier_end(items, classes, at) > at {
            Recognised::Found {
                token_type: TokenType::Identifier,
                content: items.subrange(at, identifier_end(items, classes, at)),
                end: identifier_end(items, classes, at),
            }
        } else {
            Recognised::Nothing
        }
    }

    proof fn lemma_found_is_within(&self, items: Seq<char>, classes: Seq<CharClass>, at: int) {
        lemma_identifier_end_bounds(items, classes, at);
    }

    fn try_match(&self, tokenizer: &mut Tokenizer) -> (r: Result<Option<Token>, LexError>) {
        let start = tokenizer.index;
        while tokenizer.index < tokenizer.items.len() && identifier_char(
            tokenizer.items[tokenizer.index],
            tokenizer.classes[tokenizer.index],
        )
            invariant
                tokenizer.wf(),
                tokenizer.items == old(tokenizer).items,
                tokenizer.classes == old(tokenizer).classes,
                tokenizer.snapshots == old(tokenizer).snapshots,
                start <= tokenizer.index,
                identifier_end(tokenizer.items@, tokenizer.classes@, tokenizer.index as int)
                    == identifier_end(tokenizer.items@, tokenizer.classes@, start as int),
            decreases tokenizer.items@.len() - tokenizer.index,
        {
            tokenizer.advance(1);
        }
        if tokenizer.index > start {
            let identifier = string_of(&tokenizer.items, start, tokenizer.index);
            Ok(Some(Token::new(TokenType::Identifier, tokenizer.last_position(), identifier)))
        } else {
            Ok(None)
        }
    }
}


/// The sign that a literal keeps in front: a minus, or nothing.
pub open spec fn sign_text(negative: bool) -> Seq<char> {
    if negative {
        seq!['-']
    } else {
        Seq::empty()
    }
}

/// The greatest number that an integer literal may stand for, before its
/// sign is applied.
pub open spec fn integer_limit(negative: bool) -> nat {
    if negative {
        i64::MAX as nat
    } else {
        u64::MAX as nat
    }
}

/// The message for an integer literal that stands for too great a number.
pub open spec fn too_large_message() -> Seq<char> {
    "unable to parse int: number too large to fit in target type"@
}

/// The message for a number with more than one decimal point.
pub open spec fn second_point_message() -> Seq<char> {
    "illegal decimal point"@
}

/// What a run of digits is read as: the integer literal that holds the
/// number's decimal numeral behind its sign, when the number is within the
/// limit.
pub open spec fn integer_literal(negative: bool, digits: Seq<char>, end: int) -> Recognised {
    if decimal_value(digits) > integer_limit(negative) {
        Recognised::Malformed { message: too_large_message() }
    } else {
        Recognised::Found {
            token_type: TokenType::IntLiteral,
            content: sign_text(negative) + decimal(decimal_value(digits)),
            end,
        }
    }
}

/// The sign as a string.
fn sign_string(negative: bool) -> (s: String)
    ensures
        s@ == sign_text(negative),
{
    let mut s = String::new();
    if negative {
        push_char(&mut s, '-');
        assert(s@ == seq!['-']);
    }
    s
}

/// Reads the digits `items[from..to]` of the text as an integer literal.
fn integer_token(tokenizer: &Tokenizer, negative: bool, from: usize, to: usize) -> (r: Result<
    Option<Token>,
    LexError,
>)
    requires
        tokenizer.snapshots@.len() > 0,
        from <= to <= tokenizer.items@.len(),
    ensures
        outcome_of(
            r,
            integer_literal(negative, tokenizer.items@.subrange(from as int, to as int), to as int),
            tokenizer.snapshots@.last().pos,
            to as int,
        ),
{
    let limit: u64 = if negative {
        0x7fff_ffff_ffff_ffff
    } else {
        0xffff_ffff_ffff_ffff
    };
    match read_decimal(&tokenizer.items, from, to, limit) {
        Some(value) => {
            let mut literal = sign_string(negative);
            literal.append(decimal_text(value as u128).as_str());
            Ok(Some(Token::new(TokenType::IntLiteral, tokenizer.last_position(), literal)))
        },
        None => Err(
            LexError::new_pos(
                tokenizer.last_position(),
                "unable to parse int: number too large to fit in target type",
            ),
        ),
    }
}

/// Recognises an integer literal: an optional sign and a run of digits.
pub struct IntLiteralMatcher {}

impl Matcher for IntLiteralMatcher {
    open spec fn recognise(&self, items: Seq<char>, classes: Seq<CharClass>, at: int)
        -> Recognised {
        let start = if items[at] == '-' || items[at] == '+' {
            at + 1
        } else {
            at
        };
        let end = digits_end(items, start);
        if end > start {
            integer_literal(items[at] == '-', items.subrange(start, end), end)
        } else {
            Recognised::Nothing
        }
    }

    proof fn lemma_found_is_within(&self, items: Seq<char>, classes: Seq<CharClass>, at: int) {
        let start = if items[at] == '-' || items[at] == '+' {
            at + 1
        } else {
            at
        };
        lemma_digits_end_bounds(items, start);
    }

    fn try_match(&self, tokenizer: &mut Tokenizer) -> (r: Result<Option<Token>, LexError>) {
        let first = tokenizer.items[tokenizer.index];
        let negative = first == '-';
        if negative || first == '+' {
            tokenizer.advance(1);
        }
        let start = tokenizer.index;
        while tokenizer.index < tokenizer.items.len() && digit_char(
            tokenizer.items[tokenizer.index],
        )
            invariant
                tokenizer.wf(),
                tokenizer.items == old(tokenizer).items,
                tokenizer.classes == old(tokenizer).classes,
                tokenizer.snapshots == old(tokenizer).snapshots,
                start <= tokenizer.index,
                digits_end(tokenizer.items@, tokenizer.index as int) == digits_end(
                    tokenizer.items@,
                    start as int,
                ),
            decreases tokenizer.items@.len() - tokenizer.index,
        {
            tokenizer.advance(1);
        }
        if tokenizer.index > start {
            integer_token(tokenizer, negative, start, tokenizer.index)
        } else {
            Ok(None)
        }
    }
}

/// A run of digits that ends before `end` ends there.
pub proof fn lemma_digits_end_of_run(items: Seq<char>, at: int, end: int)
    requires
        0 <= at <= end <= items.len(),
        forall|i: int| at <= i < end ==> is_digit(#[trigger] items[i]),
        end < items.len() ==> !is_digit(items[end]),
    ensures
        digits_end(items, at) == end,
    decreases end - at,
{
    if at < end {
        lemma_digits_end_of_run(items, at + 1, end);
    }
}

/// A numeral in the text is recognised as the integer literal that holds
/// the numeral as it is written, when the number fits.
pub proof fn lemma_numeral_keeps_its_text(
    items: Seq<char>,
    classes: Seq<CharClass>,
    at: int,
    end: int,
)
    requires
        0 <= at < end <= items.len(),
        is_numeral(items.subrange(at, end)),
        end < items.len() ==> !is_digit(items[end]),
        decimal_value(items.subrange(at, end)) <= u64::MAX,
    ensures
        (IntLiteralMatcher {  }).recognise(items, classes, at) == (Recognised::Found {
            token_type: TokenType::IntLiteral,
            content: items.subrange(at, end),
            end,
        }),
{
    let digits = items.subrange(at, end);
    assert forall|i: int| at <= i < end implies is_digit(#[trigger] items[i]) by {
        assert(items[i] == digits[i - at]);
    }
    assert(items[at] == digits[0]);
    lemma_digits_end_of_run(items, at, end);
    lemma_numeral_is_canonical(digits);
    assert(sign_text(false) + digits =~= digits);
}

/// How many decimal points `text` holds.
pub open spec fn points(text: Seq<char>) -> nat
    decreases text.len(),
{
    if text.len() == 0 {
        0
    } else {
        points(text.drop_last()) + if text.last() == '.' {
            1nat
        } else {
            0nat
        }
    }
}

/// Whether `body` is a decimal point with no digit but, at most, one zero
/// before it: no number.
pub open spec fn lone_point(body: Seq<char>) -> bool {
    body =~= seq!['.'] || body =~= seq!['0', '.']
}

/// The zero that a number gets in front when it starts with its decimal
/// point.
pub open spec fn leading_zero(body: Seq<char>) -> Seq<char> {
    if body.len() > 0 && body[0] == '.' {
        seq!['0']
    } else {
        Seq::empty()
    }
}

/// Recognises a number: an optional sign, then digits with at most one
/// decimal point among them. With a point it is a float literal, which
/// holds the text as it is written, behind a minus if it has one and a zero
/// if it starts with the point. Without a point it is an integer literal.
pub struct FloatLiteralMatcher;

impl Matcher for FloatLiteralMatcher {
    open spec fn recognise(&self, items: Seq<char>, classes: Seq<CharClass>, at: int)
        -> Recognised {
        let negative = items[at] == '-';
        let start = if items[at] == '-' || items[at] == '+' {
            at + 1
        } else {
            at
        };
        if start >= items.len() || !is_number_char(items[start]) {
            Recognised::Nothing
        } else {
            let end = number_end(items, start + 1);
            let body = items.subrange(start, end);
            if points(body) >= 2 {
                Recognised::Malformed { message: second_point_message() }
            } else if lone_point(body) {
                Recognised::Nothing
            } else if points(body) == 1 {
                Recognised::Found {
                    token_type: TokenType::FloatLiteral,
                    content: sign_text(negative) + leading_zero(body) + body,
                    end,
                }
            } else {
                integer_literal(negative, body, end)
            }
        }
    }

    proof fn lemma_found_is_within(&self, items: Seq<char>, classes: Seq<CharClass>, at: int) {
        let start = if items[at] == '-' || items[at] == '+' {
            at + 1
        } else {
            at
        };
        if start < items.len() {
            lemma_number_end_bounds(items, start + 1);
        }
    }

    fn try_match(&self, tokenizer: &mut Tokenizer) -> (r: Result<Option<Token>, LexError>) {
        let first = tokenizer.items[tokenizer.index];
        let negative = first == '-';
        if negative || first == '+' {
            tokenizer.advance(1);
        }
        let start = tokenizer.index;
        if start >= tokenizer.items.len() {
            return Ok(None);
        }
        let lead = tokenizer.items[start];
        if !(digit_char(lead) || lead == '.') {
            return Ok(None);
        }
        tokenizer.advance(1);
        let mut count: usize = if lead == '.' {
            1
        } else {
            0
        };
        proof {
            let one = tokenizer.items@.subrange(start as int, start + 1);
            assert(one.drop_last() =~= Seq::<char>::empty());
            assert(points(one.drop_last()) == 0);
            lemma_number_end_bounds(tokenizer.items@, start + 1);
        }
        while tokenizer.index < tokenizer.items.len() && (digit_char(
            tokenizer.items[tokenizer.index],
        ) || tokenizer.items[tokenizer.index] == '.')
            invariant
                tokenizer.wf(),
                tokenizer.items == old(tokenizer).items,
                tokenizer.classes == old(tokenizer).classes,
                tokenizer.snapshots == old(tokenizer).snapshots,
                start < tokenizer.index,
                count == points(tokenizer.items@.subrange(start as int, tokenizer.index as int)),
                count <= tokenizer.index - start,
                number_end(tokenizer.items@, tokenizer.index as int) == number_end(
                    tokenizer.items@,
                    start + 1,
                ),
            decreases tokenizer.items@.len() - tokenizer.index,
        {
            proof {
                let next = tokenizer.items@.subrange(start as int, tokenizer.index + 1);
                assert(next.drop_last() == tokenizer.items@.subrange(
                    start as int,
                    tokenizer.index as int,
                ));
            }
            if tokenizer.items[tokenizer.index] == '.' {
                count += 1;
            }
            tokenizer.advance(1);
        }
        let end = tokenizer.index;
        let ghost body = tokenizer.items@.subrange(start as int, end as int);
        if count >= 2 {
            return Err(LexError::new_pos(tokenizer.last_position(), "illegal decimal point"));
        }
        let lone = (end - start == 1 && lead == '.') || (end - start == 2 && lead == '0'
            && tokenizer.items[start + 1] == '.');
        assert(lone == lone_point(body)) by {
            if lone_point(body) {
                if body =~= seq!['.'] {
                    assert(body.len() == 1);
                    assert(body[0] == '.');
                } else {
                    assert(body.len() == 2);
                    assert(body[0] == '0');
                    assert(body[1] == '.');
                }
            }
        }
        if lone {
            return Ok(None);
        }
        if count == 1 {
            let mut literal = sign_string(negative);
            let mut zero = String::new();
            if lead == '.' {
                push_char(&mut zero, '0');
                assert(zero@ == seq!['0']);
            }
            literal.append(zero.as_str());
            literal.append(string_of(&tokenizer.items, start, end).as_str());
            Ok(Some(Token::new(TokenType::FloatLiteral, tokenizer.last_position(), literal)))
        } else {
            integer_token(tokenizer, negative, start, end)
        }
    }
}


/// How the text of a string literal ends.
pub enum StringScan {
    /// The literal holds `content` and the next token starts at `end`.
    Closed { content: Seq<char>, end: int },
    /// The literal cannot be read.
    Broken { message: Seq<char> },
}

/// The character that a backslash and `c` stand for, where they stand for
/// one.
pub open spec fn escaped(c: char) -> Option<char> {
    if c == '\\' || c == '\'' || c == '"' {
        Some(c)
    } else if c == 'n' {
        Some('\n')
    } else if c == 'r' {
        Some('\r')
    } else if c == 't' {
        Some('\t')
    } else {
        None
    }
}

/// The message for a backslash before a character that it cannot escape.
pub open spec fn invalid_escape_message(c: char) -> Seq<char> {
    "invalid character escape: "@ + seq![c]
}

/// The message for a backslash at the end of the text.
pub open spec fn open_escape_message() -> Seq<char> {
    "unterminated character escape"@
}

/// The message for a literal in single quotes that does not hold exactly
/// one character.
pub open spec fn invalid_char_message() -> Seq<char> {
    "invalid char literal"@
}

/// Reads a string literal from inside: `content` was read already and the
/// character at `i` is next. The literal ends with its delimiter or with
/// the text. A raw literal takes every character as it is; elsewhere a
/// backslash and the character behind it stand for one character.
pub open spec fn scan_string(
    items: Seq<char>,
    i: int,
    delimiter: char,
    raw: bool,
    content: Seq<char>,
) -> StringScan
    decreases items.len() - i,
{
    if i < 0 || i >= items.len() {
        StringScan::Closed { content, end: items.len() as int }
    } else if raw {
        if items[i] == '"' {
            StringScan::Closed { content, end: i + 1 }
        } else {
            scan_string(items, i + 1, delimiter, raw, content.push(items[i]))
        }
    } else if items[i] == '\\' {
        if i + 1 >= items.len() {
            StringScan::Broken { message: open_escape_message() }
        } else {
            match escaped(items[i + 1]) {
                Some(c) => scan_string(items, i + 2, delimiter, raw, content.push(c)),
                None => StringScan::Broken { message: invalid_escape_message(items[i + 1]) },
            }
        }
    } else if items[i] == delimiter {
        StringScan::Closed { content, end: i + 1 }
    } else {
        scan_string(items, i + 1, delimiter, raw, content.push(items[i]))
    }
}

/// A literal that is closed ends at or behind the place from which it was
/// read, within the text.
pub proof fn lemma_scan_string_bounds(
    items: Seq<char>,
    i: int,
    delimiter: char,
    raw: bool,
    content: Seq<char>,
)
    requires
        0 <= i <= items.len(),
    ensures
        scan_string(items, i, delimiter, raw, content) matches StringScan::Closed { end, .. } ==> i
            <= end <= items.len(),
    decreases items.len() - i,
{
    if i < items.len() {
        if raw {
            if items[i] != '"' {
                lemma_scan_string_bounds(items, i + 1, delimiter, raw, content.push(items[i]));
            }
        } else if items[i] == '\\' {
            if i + 1 < items.len() {
                match escaped(items[i + 1]) {
                    Some(c) => lemma_scan_string_bounds(
                        items,
                        i + 2,
                        delimiter,
                        raw,
                        content.push(c),
                    ),
                    None => {},
                }
            }
        } else if items[i] != delimiter {
            lemma_scan_string_bounds(items, i + 1, delimiter, raw, content.push(items[i]));
        }
    }
}

/// The token that a literal is, once its text was read: a string literal in
/// double quotes; in single quotes a char literal, which holds exactly one
/// character.
pub open spec fn quoted_literal(scan: StringScan, delimiter: char) -> Recognised {
    match scan {
        StringScan::Broken { message } => Recognised::Malformed { message },
        StringScan::Closed { content, end } => if delimiter == '"' {
            Recognised::Found { token_type: TokenType::StringLiteral, content, end }
        } else if content.len() == 1 {
            Recognised::Found { token_type: TokenType::CharLiteral, content, end }
        } else {
            Recognised::Malformed { message: invalid_char_message() }
        },
    }
}

/// The character that a backslash and `c` stand for.
fn escape_of(c: char) -> (r: Option<char>)
    ensures
        r == escaped(c),
{
    if c == '\\' || c == '\'' || c == '"' {
        Some(c)
    } else if c == 'n' {
        Some('\n')
    } else if c == 'r' {
        Some('\r')
    } else if c == 't' {
        Some('\t')
    } else {
        None
    }
}

/// Recognises a literal in double quotes, in single quotes, or a raw
/// literal: an `r` and text in double quotes.
pub struct StringLiteralMatcher {}

impl Matcher for StringLiteralMatcher {
    open spec fn recognise(&self, items: Seq<char>, classes: Seq<CharClass>, at: int)
        -> Recognised {
        if items[at] == '"' {
            quoted_literal(scan_string(items, at + 1, '"', false, Seq::empty()), '"')
        } else if items[at] == '\'' {
            quoted_literal(scan_string(items, at + 1, '\'', false, Seq::empty()), '\'')
        } else if items[at] == 'r' && at + 1 < items.len() && items[at + 1] == '"' {
            quoted_literal(scan_string(items, at + 2, '"', true, Seq::empty()), '"')
        } else {
            Recognised::Nothing
        }
    }

    proof fn lemma_found_is_within(&self, items: Seq<char>, classes: Seq<CharClass>, at: int) {
        lemma_scan_string_bounds(items, at + 1, '"', false, Seq::empty());
        lemma_scan_string_bounds(items, at + 1, '\'', false, Seq::empty());
        if at + 1 < items.len() {
            lemma_scan_string_bounds(items, at + 2, '"', true, Seq::empty());
        }
    }

    fn try_match(&self, tokenizer: &mut Tokenizer) -> (r: Result<Option<Token>, LexError>) {
        let first = tokenizer.items[tokenizer.index];
        let mut raw = false;
        let delimiter = if first == '"' {
            '"'
        } else if first == '\'' {
            '\''
        } else if first == 'r' && tokenizer.index + 1 < tokenizer.items.len()
            && tokenizer.items[tokenizer.index + 1] == '"' {
            raw = true;
            tokenizer.advance(1);
            '"'
        } else {
            return Ok(None);
        };
        tokenizer.advance(1);
        let ghost from = tokenizer.index as int;
        let ghost expected = self.recognise(
                    old(tokenizer).items@,
                    old(tokenizer).classes@,
                    old(tokenizer).index as int,
                );
        let mut string = String::new();
        let mut closed = false;
        while !closed && tokenizer.index < tokenizer.items.len()
            invariant
                tokenizer.wf(),
                tokenizer.items == old(tokenizer).items,
                tokenizer.classes == old(tokenizer).classes,
                tokenizer.snapshots == old(tokenizer).snapshots,
                tokenizer.snapshots@.len() > 0,
                raw ==> delimiter == '"',
                expected == self.recognise(
                    old(tokenizer).items@,
                    old(tokenizer).classes@,
                    old(tokenizer).index as int,
                ),
                expected == quoted_literal(
                    scan_string(tokenizer.items@, from, delimiter, raw, Seq::empty()),
                    delimiter,
                ),
                !closed ==> scan_string(
                    tokenizer.items@,
                    tokenizer.index as int,
                    delimiter,
                    raw,
                    string@,
                ) == scan_string(tokenizer.items@, from, delimiter, raw, Seq::empty()),
                closed ==> scan_string(tokenizer.items@, from, delimiter, raw, Seq::empty())
                    == (StringScan::Closed { content: string@, end: tokenizer.index as int }),
            decreases tokenizer.items@.len() - tokenizer.index + if closed {
                0int
            } else {
                1int
            },
        {
            let c = tokenizer.items[tokenizer.index];
            if raw {
                if c != '"' {
                    push_char(&mut string, c);
                } else {
                    closed = true;
                }
                tokenizer.advance(1);
            } else if c == '\\' {
                if tokenizer.index + 1 >= tokenizer.items.len() {
                    return Err(
                        LexError::new_pos(
                            tokenizer.last_position(),
                            "unterminated character escape",
                        ),
                    );
                }
                let after = tokenizer.items[tokenizer.index + 1];
                match escape_of(after) {
                    Some(e) => {
                        push_char(&mut string, e);
                        tokenizer.advance(2);
                    },
                    None => {
                        let mut message = String::from_str("invalid character escape: ");
                        let mut letter = String::new();
                        push_char(&mut letter, after);
                        assert(letter@ == seq![after]);
                        message.append(letter.as_str());
                        return Err(
                            LexError::new_pos(tokenizer.last_position(), message.as_str()),
                        );
                    },
                }
            } else {
                if c != delimiter {
                    push_char(&mut string, c);
                } else {
                    closed = true;
                }
                tokenizer.advance(1);
            }
        }
        if delimiter == '"' {
            Ok(Some(Token::new(TokenType::StringLiteral, tokenizer.last_position(), string)))
        } else if string.as_str().unicode_len() == 1 {
            Ok(Some(Token::new(TokenType::CharLiteral, tokenizer.last_position(), string)))
        } else {
            Err(LexError::new_pos(tokenizer.last_position(), "invalid char literal"))
        }
    }
}

/// The texts of a list of constants.
pub open spec fn texts(constants: Seq<String>) -> Seq<Seq<char>> {
    Seq::new(constants.len(), |i: int| constants[i]@)
}

/// The place of the first of the texts `list`, from the one at `from` on,
/// that holds a character and stands in `items` at `at`.
pub open spec fn first_text(list: Seq<Seq<char>>, items: Seq<char>, at: int, from: int) -> Option<
    int,
>
    decreases list.len() - from,
{
    if from < 0 || from >= list.len() {
        None
    } else if list[from].len() > 0 && starts_with(items, at, list[from]) {
        Some(from)
    } else {
        first_text(list, items, at, from + 1)
    }
}

/// What `first_text` finds is one of the texts and stands in the text.
pub proof fn lemma_first_text(list: Seq<Seq<char>>, items: Seq<char>, at: int, from: int)
    requires
        0 <= from,
    ensures
        first_text(list, items, at, from) matches Some(k) ==> from <= k < list.len()
            && list[k].len() > 0 && starts_with(items, at, list[k]),
    decreases list.len() - from,
{
    if from < list.len() && !(list[from].len() > 0 && starts_with(items, at, list[from])) {
        lemma_first_text(list, items, at, from + 1);
    }
}

/// What a list of fixed texts recognises at `at`: the first of them that
/// holds a character and stands there, as a token of kind `token_type`.
pub open spec fn constant_recognised(
    token_type: TokenType,
    list: Seq<Seq<char>>,
    items: Seq<char>,
    at: int,
) -> Recognised {
    match first_text(list, items, at, 0) {
        Some(k) => Recognised::Found { token_type, content: list[k], end: at + list[k].len() },
        None => Recognised::Nothing,
    }
}

/// The place in `constants` of the first that holds a character and stands
/// in the text at the cursor.
fn find_constant(constants: &Vec<String>, tokenizer: &Tokenizer) -> (r: Option<usize>)
    requires
        tokenizer.wf(),
    ensures
        match r {
            Some(k) => first_text(texts(constants@), tokenizer.items@, tokenizer.index as int, 0)
                == Some(k as int) && k < constants@.len(),
            None => first_text(texts(constants@), tokenizer.items@, tokenizer.index as int, 0)
                is None,
        },
{
    let ghost list = texts(constants@);
    let mut k: usize = 0;
    while k < constants.len()
        invariant
            k <= constants.len(),
            tokenizer.wf(),
            list == texts(constants@),
            first_text(list, tokenizer.items@, tokenizer.index as int, 0) == first_text(
                list,
                tokenizer.items@,
                tokenizer.index as int,
                k as int,
            ),
        decreases constants.len() - k,
    {
        assert(list[k as int] == constants@[k as int]@);
        let text = chars_of(constants[k].as_str());
        if text.len() > 0 && text_starts_at(&tokenizer.items, tokenizer.index, &text) {
            return Some(k);
        }
        k += 1;
    }
    None
}

/// Recognises the first of a list of fixed texts that stands at the
/// cursor. A text without a character never does.
pub struct ConstantMatcher {
    pub token_type: TokenType,
    pub constants: Vec<String>,
}

impl ConstantMatcher {
    pub fn new(token_type: TokenType, constants: Vec<String>) -> (m: Self)
        ensures
            m.token_type == token_type,
            m.constants == constants,
    {
        ConstantMatcher { token_type, constants }
    }
}

impl Matcher for ConstantMatcher {
    open spec fn recognise(&self, items: Seq<char>, classes: Seq<CharClass>, at: int)
        -> Recognised {
        constant_recognised(self.token_type, texts(self.constants@), items, at)
    }

    proof fn lemma_found_is_within(&self, items: Seq<char>, classes: Seq<CharClass>, at: int) {
        lemma_first_text(texts(self.constants@), items, at, 0);
    }

    fn try_match(&self, tokenizer: &mut Tokenizer) -> (r: Result<Option<Token>, LexError>) {
        proof {
            lemma_first_text(
                texts(self.constants@),
                tokenizer.items@,
                tokenizer.index as int,
                0,
            );
        }
        match find_constant(&self.constants, tokenizer) {
            Some(k) => {
                assert(texts(self.constants@)[k as int] == self.constants@[k as int]@);
                let length = self.constants[k].as_str().unicode_len();
                tokenizer.advance(length);
                Ok(
                    Some(
                        Token::new(
                            self.token_type,
                            tokenizer.last_position(),
                            self.constants[k].clone(),
                        ),
                    ),
                )
            },
            None => Ok(None),
        }
    }
}

/// Whether a word may go on with `c`: a letter or digit, an underscore or
/// a question mark.
pub open spec fn is_word_char(c: char, class: CharClass) -> bool {
    c == '_' || c == '?' || class.alphanumeric
}

/// What a list of words recognises at `at`: the first of them that holds a
/// character and stands there, as a token of kind `token_type`, unless the
/// text goes on behind it as a longer word.
pub open spec fn key_recognised(
    token_type: TokenType,
    list: Seq<Seq<char>>,
    items: Seq<char>,
    classes: Seq<CharClass>,
    at: int,
) -> Recognised {
    match first_text(list, items, at, 0) {
        Some(k) => {
            let end = at + list[k].len();
            if end < items.len() && is_word_char(items[end], classes[end]) {
                Recognised::Nothing
            } else {
                Recognised::Found { token_type, content: list[k], end }
            }
        },
        None => Recognised::Nothing,
    }
}

/// Recognises the first of a list of words that stands at the cursor,
/// unless the text goes on as a longer word.
pub struct KeyMatcher {
    pub token_type: TokenType,
    pub constants: Vec<String>,
}

impl KeyMatcher {
    pub fn new(token_type: TokenType, constants: Vec<String>) -> (m: Self)
        ensures
            m.token_type == token_type,
            m.constants == constants,
    {
        KeyMatcher { token_type, constants }
    }
}

impl Matcher for KeyMatcher {
    open spec fn recognise(&self, items: Seq<char>, classes: Seq<CharClass>, at: int)
        -> Recognised {
        key_recognised(self.token_type, texts(self.constants@), items, classes, at)
    }

    proof fn lemma_found_is_within(&self, items: Seq<char>, classes: Seq<CharClass>, at: int) {
        lemma_first_text(texts(self.constants@), items, at, 0);
    }

    fn try_match(&self, tokenizer: &mut Tokenizer) -> (r: Result<Option<Token>, LexError>) {
        proof {
            lemma_first_text(
                texts(self.constants@),
                tokenizer.items@,
                tokenizer.index as int,
                0,
            );
        }
        match find_constant(&self.constants, tokenizer) {
            Some(k) => {
                assert(texts(self.constants@)[k as int] == self.constants@[k as int]@);
                let length = self.constants[k].as_str().unicode_len();
                let end = tokenizer.index + length;
                if end < tokenizer.items.len() {
                    let c = tokenizer.items[end];
                    if c == '_' || c == '?' || tokenizer.classes[end].alphanumeric {
                        return Ok(None);
                    }
                }
                tokenizer.advance(length);
                Ok(
                    Some(
                        Token::new(
                            self.token_type,
                            tokenizer.last_position(),
                            self.constants[k].clone(),
                        ),
                    ),
                )
            },
            None => Ok(None),
        }
    }
}

/// Any one of the matchers of this crate.
pub enum AnyMatcher {
    Whitespace(WhitespaceMatcher),
    IntLiteral(IntLiteralMatcher),
    FloatLiteral(FloatLiteralMatcher),
    StringLiteral(StringLiteralMatcher),
    Constant(ConstantMatcher),
    Key(KeyMatcher),
    Identifier(IdentifierMatcher),
}

impl Matcher for AnyMatcher {
    open spec fn recognise(&self, items: Seq<char>, classes: Seq<CharClass>, at: int)
        -> Recognised {
        match self {
            AnyMatcher::Whitespace(m) => m.recognise(items, classes, at),
            AnyMatcher::IntLiteral(m) => m.recognise(items, classes, at),
            AnyMatcher::FloatLiteral(m) => m.recognise(items, classes, at),
            AnyMatcher::StringLiteral(m) => m.recognise(items, classes, at),
            AnyMatcher::Constant(m) => m.recognise(items, classes, at),
            AnyMatcher::Key(m) => m.recognise(items, classes, at),
            AnyMatcher::Identifier(m) => m.recognise(items, classes, at),
        }
    }

    proof fn lemma_found_is_within(&self, items: Seq<char>, classes: Seq<CharClass>, at: int) {
        match self {
            AnyMatcher::Whitespace(m) => m.lemma_found_is_within(items, classes, at),
            AnyMatcher::IntLiteral(m) => m.lemma_found_is_within(items, classes, at),
            AnyMatcher::FloatLiteral(m) => m.lemma_found_is_within(items, classes, at),
            AnyMatcher::StringLiteral(m) => m.lemma_found_is_within(items, classes, at),
            AnyMatcher::Constant(m) => m.lemma_found_is_within(items, classes, at),
            AnyMatcher::Key(m) => m.lemma_found_is_within(items, classes, at),
            AnyMatcher::Identifier(m) => m.lemma_found_is_within(items, classes, at),
        }
    }

    fn try_match(&self, tokenizer: &mut Tokenizer) -> (r: Result<Option<Token>, LexError>) {
        match self {
            AnyMatcher::Whitespace(m) => m.try_match(tokenizer),
            AnyMatcher::IntLiteral(m) => m.try_match(tokenizer),
            AnyMatcher::FloatLiteral(m) => m.try_match(tokenizer),
            AnyMatcher::StringLiteral(m) => m.try_match(tokenizer),
            AnyMatcher::Constant(m) => m.try_match(tokenizer),
            AnyMatcher::Key(m) => m.try_match(tokenizer),
            AnyMatcher::Identifier(m) => m.try_match(tokenizer),
        }
    }
}

} // verus!
