//! The error values of the four stages. Each carries a message and, where
//! one is known, the position in the source text that it speaks of.

use vstd::prelude::*;
use crate::token::TokenPosition;

verus! {

#[derive(Debug)]
pub enum LexErrorValue {
    Constant(String),
}

/// A literal that the lexer cannot read.
#[derive(Debug)]
pub struct LexError {
    pub value: LexErrorValue,
    pub position: Option<TokenPosition>,
}

impl LexError {
    /// The text of the message.
    pub open spec fn message(&self) -> Seq<char> {
        match self.value {
            LexErrorValue::Constant(s) => s@,
        }
    }

    pub fn new_pos(position: TokenPosition, value: &str) -> (e: LexError)
        ensures
            e.message() == value@,
            e.position == Some(position),
    {
        LexError {
            value: LexErrorValue::Constant(String::from_str(value)),
            position: Some(position),
        }
    }

    /// The message.
    pub fn to_string(&self) -> (s: String)
        ensures
            s@ == self.message(),
    {
        match &self.value {
            LexErrorValue::Constant(s) => s.clone(),
        }
    }
}

#[derive(Debug)]
pub enum ParserErrorValue {
    Constant(String),
}

/// A token sequence that is no program.
#[derive(Debug)]
pub struct ParserError {
    pub value: ParserErrorValue,
    pub position: Option<TokenPosition>,
}

impl ParserError {
    /// The text of the message.
    pub open spec fn message(&self) -> Seq<char> {
        match self.value {
            ParserErrorValue::Constant(s) => s@,
        }
    }

    /// The message.
    pub fn message_text(&self) -> (s: String)
        ensures
            s@ == self.message(),
    {
        match &self.value {
            ParserErrorValue::Constant(s) => s.clone(),
        }
    }

    pub fn new(value: &str) -> (e: ParserError)
        ensures
            e.message() == value@,
            e.position is None,
    {
        ParserError { value: ParserErrorValue::Constant(String::from_str(value)), position: None }
    }

    pub fn new_pos(position: TokenPosition, value: &str) -> (e: ParserError)
        ensures
            e.message() == value@,
            e.position == Some(position),
    {
        ParserError {
            value: ParserErrorValue::Constant(String::from_str(value)),
            position: Some(position),
        }
    }

    /// What the error reads as: the message, after the position and a colon
    /// where there is a position.
    pub open spec fn display(&self) -> Seq<char> {
        match self.position {
            Some(p) => p.display() + ": "@ + self.message(),
            None => self.message(),
        }
    }

    /// The error as a line of text.
    pub fn to_string(&self) -> (s: String)
        ensures
            s@ == self.display(),
    {
        match &self.value {
            ParserErrorValue::Constant(m) => match self.position {
                Some(p) => {
                    let mut s = p.to_string();
                    s.append(": ");
                    s.append(m.as_str());
                    s
                },
                None => m.clone(),
            },
        }
    }
}

#[derive(Debug)]
pub enum CheckErrorValue {
    Constant(String),
}

/// A name that is used where nothing binds it.
#[derive(Debug)]
pub struct CheckError {
    pub value: CheckErrorValue,
    pub position: Option<TokenPosition>,
}

impl CheckError {
    /// The text of the message.
    pub open spec fn message(&self) -> Seq<char> {
        match self.value {
            CheckErrorValue::Constant(s) => s@,
        }
    }

    pub fn new(value: &str) -> (e: CheckError)
        ensures
            e.message() == value@,
            e.position is None,
    {
        CheckError { value: CheckErrorValue::Constant(String::from_str(value)), position: None }
    }

    pub fn new_pos(value: &str, position: TokenPosition) -> (e: CheckError)
        ensures
            e.message() == value@,
            e.position == Some(position),
    {
        CheckError {
            value: CheckErrorValue::Constant(String::from_str(value)),
            position: Some(position),
        }
    }

    /// The message.
    pub fn to_string(&self) -> (s: String)
        ensures
            s@ == self.message(),
    {
        match &self.value {
            CheckErrorValue::Constant(s) => s.clone(),
        }
    }
}

#[derive(Debug)]
pub enum TranspileErrorValue {
    Constant(String),
}

/// A syntax tree that the code generator cannot lower.
#[derive(Debug)]
pub struct TranspileError {
    pub value: TranspileErrorValue,
    pub position: Option<TokenPosition>,
}

impl TranspileError {
    /// The text of the message.
    pub open spec fn message(&self) -> Seq<char> {
        match self.value {
            TranspileErrorValue::Constant(s) => s@,
        }
    }

    pub fn new_pos(value: &str, position: TokenPosition) -> (e: TranspileError)
        ensures
            e.message() == value@,
            e.position == Some(position),
    {
        TranspileError {
            value: TranspileErrorValue::Constant(String::from_str(value)),
            position: Some(position),
        }
    }

    /// The message.
    pub fn to_string(&self) -> (s: String)
        ensures
            s@ == self.message(),
    {
        match &self.value {
            TranspileErrorValue::Constant(s) => s.clone(),
        }
    }
}

} // verus!
