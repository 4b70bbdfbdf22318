//! Tokens: their kinds, their positions and their text.

use vstd::prelude::*;
use vstd::std_specs::cmp::PartialEqSpecImpl;
use crate::text::{decimal, decimal_text};

verus! {

/// The kinds of token the lexer produces.
#[derive(Debug, Copy, Clone, PartialEq, Eq, Structural)]
pub enum TokenType {
    IntLiteral,
    FloatLiteral,
    StringLiteral,
    CharLiteral,
    BoolLiteral,
    Symbol,
    Operator,
    Identifier,
    Type,
    Keyword,
    Whitespace,
    Indent,
    EOL,
    EOF,
}

impl TokenType {
    /// The name of the kind as it is written in diagnostics.
    pub open spec fn name_text(self) -> Seq<char> {
        match self {
            TokenType::IntLiteral => "IntLiteral"@,
            TokenType::FloatLiteral => "FloatLiteral"@,
            TokenType::StringLiteral => "StringLiteral"@,
            TokenType::CharLiteral => "CharLiteral"@,
            TokenType::BoolLiteral => "BoolLiteral"@,
            TokenType::Symbol => "Symbol"@,
            TokenType::Operator => "Operator"@,
            TokenType::Identifier => "Identifier"@,
            TokenType::Type => "Type"@,
            TokenType::Keyword => "Keyword"@,
            TokenType::Whitespace => "Whitespace"@,
            TokenType::Indent => "Indent"@,
            TokenType::EOL => "EOL"@,
            TokenType::EOF => "EOF"@,
        }
    }

    /// The name of the kind, as text.
    pub fn name(&self) -> (s: &'static str)
        ensures
            s@ == self.name_text(),
    {
        match self {
            TokenType::IntLiteral => "IntLiteral",
            TokenType::FloatLiteral => "FloatLiteral",
            TokenType::StringLiteral => "StringLiteral",
            TokenType::CharLiteral => "CharLiteral",
            TokenType::BoolLiteral => "BoolLiteral",
            TokenType::Symbol => "Symbol",
            TokenType::Operator => "Operator",
            TokenType::Identifier => "Identifier",
            TokenType::Type => "Type",
            TokenType::Keyword => "Keyword",
            TokenType::Whitespace => "Whitespace",
            TokenType::Indent => "Indent",
            TokenType::EOL => "EOL",
            TokenType::EOF => "EOF",
        }
    }

    /// Whether a token of this kind stands for a literal value.
    pub open spec fn is_literal(self) -> bool {
        self == TokenType::IntLiteral || self == TokenType::FloatLiteral || self
            == TokenType::BoolLiteral || self == TokenType::StringLiteral || self
            == TokenType::CharLiteral
    }
}

/// A line counter, starting at 1, and a column counter within the source text.
#[derive(Debug, Copy, Clone, PartialEq, Eq, Structural)]
pub struct TokenPosition {
    pub line: usize,
    pub col: usize,
}

impl Default for TokenPosition {
    /// The position before the first character: line 1, column 0.
    fn default() -> (p: TokenPosition)
        ensures
            p.line == 1,
            p.col == 0,
    {
        TokenPosition { line: 1, col: 0 }
    }
}

impl TokenPosition {
    pub fn new(line: usize, col: usize) -> (p: TokenPosition)
        ensures
            p.line == line,
            p.col == col,
    {
        TokenPosition { line, col }
    }

    /// What the position reads as: line and column in square brackets.
    pub open spec fn display(self) -> Seq<char> {
        "["@ + decimal(self.line as nat) + ", "@ + decimal(self.col as nat) + "]"@
    }

    /// The position as text.
    pub fn to_string(&self) -> (s: String)
        ensures
            s@ == self.display(),
    {
        let mut s = String::from_str("[");
        s.append(decimal_text(self.line as u128).as_str());
        s.append(", ");
        s.append(decimal_text(self.col as u128).as_str());
        s.append("]");
        s
    }
}

/// A lexeme with its kind and the position at which it starts.
#[derive(Debug, Clone)]
pub struct Token {
    pub token_type: TokenType,
    pub position: TokenPosition,
    pub content: String,
}

/// A token as a mathematical value.
pub struct TokenView {
    pub token_type: TokenType,
    pub position: TokenPosition,
    pub content: Seq<char>,
}

impl View for Token {
    type V = TokenView;

    open spec fn view(&self) -> TokenView {
        TokenView { token_type: self.token_type, position: self.position, content: self.content@ }
    }
}

/// The views of a sequence of tokens, in order.
pub open spec fn tokens_view(tokens: Seq<Token>) -> Seq<TokenView> {
    Seq::new(tokens.len(), |i: int| tokens[i]@)
}

impl Token {
    pub fn new(token_type: TokenType, position: TokenPosition, content: String) -> (t: Token)
        ensures
            t.token_type == token_type,
            t.position == position,
            t.content == content,
    {
        Token { token_type, position, content }
    }

    /// The text of the lexeme.
    pub fn content(&self) -> (s: &String)
        ensures
            s == self.content,
    {
        &self.content
    }

    /// A copy of the token.
    pub fn duplicate(&self) -> (t: Token)
        ensures
            t == *self,
    {
        Token {
            token_type: self.token_type,
            position: self.position,
            content: self.content.clone(),
        }
    }
}

/// Two tokens are equal when they are of the same kind, whatever their text
/// and position.
impl PartialEq for Token {
    fn eq(&self, other: &Token) -> (r: bool) {
        self.token_type == other.token_type
    }
}

impl PartialEqSpecImpl for Token {
    open spec fn obeys_eq_spec() -> bool {
        true
    }

    open spec fn eq_spec(&self, other: &Token) -> bool {
        self.token_type == other.token_type
    }
}

} // verus!
