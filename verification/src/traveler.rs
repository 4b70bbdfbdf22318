//! A cursor over the tokens, for the parser.

use vstd::prelude::*;
use crate::error::ParserError;
use crate::text::str_equal;
use crate::token::{tokens_view, Token, TokenType, TokenView};

verus! {

/// The token under a cursor at `top`: the one at that place, or the last
/// one where the cursor has run past the end.
pub open spec fn current_at(tokens: Seq<TokenView>, top: int) -> TokenView {
    if top >= tokens.len() {
        tokens[tokens.len() - 1]
    } else {
        tokens[top]
    }
}

/// The cursor one token on, where there is a token under it.
pub open spec fn stepped(tokens: Seq<TokenView>, top: int) -> int {
    if top < tokens.len() {
        top + 1
    } else {
        top
    }
}

/// The message that one thing was expected and another found.
pub open spec fn expected_message(wanted: Seq<char>, found: Seq<char>) -> Seq<char> {
    "expected '"@ + wanted + "', found '"@ + found + "'"@
}

/// The message that the tokens ended where one with the text `wanted` was
/// expected.
pub open spec fn expected_at_end_message(wanted: Seq<char>) -> Seq<char> {
    "expected '"@ + wanted + "', found end of source >:("@
}

/// The first place from `from` on at which `sequence` does not hold the text
/// of the token that stands as far behind the cursor.
pub open spec fn first_mismatch(
    tokens: Seq<TokenView>,
    top: int,
    sequence: Seq<String>,
    from: int,
) -> Option<int>
    decreases sequence.len() - from,
{
    if from < 0 || from >= sequence.len() {
        None
    } else if top + from >= tokens.len() || sequence[from]@ != tokens[top + from].content {
        Some(from)
    } else {
        first_mismatch(tokens, top, sequence, from + 1)
    }
}

/// The tokens and the cursor. `top` is the place of the current token; at
/// the number of tokens the cursor is past the end.
#[derive(Debug)]
pub struct Traveler {
    pub tokens: Vec<Token>,
    pub top: usize,
}

impl Traveler {
    /// The cursor is at a token or just past the last one.
    pub open spec fn wf(&self) -> bool {
        self.top <= self.tokens@.len() < usize::MAX
    }

    /// The tokens as mathematical values.
    pub open spec fn tokens_view(&self) -> Seq<TokenView> {
        tokens_view(self.tokens@)
    }

    /// The current token as a mathematical value.
    pub open spec fn current_view(&self) -> TokenView {
        current_at(self.tokens_view(), self.top as int)
    }

    /// A cursor at the first of `tokens`.
    pub fn new(tokens: Vec<Token>) -> (t: Traveler)
        requires
            tokens@.len() < usize::MAX,
        ensures
            t.wf(),
            t.tokens == tokens,
            t.top == 0,
    {
        Traveler { tokens, top: 0 }
    }

    /// Moves one token on, unless the cursor is past the end. Says whether it
    /// moved.
    pub fn next(&mut self) -> (moved: bool)
        requires
            old(self).wf(),
        ensures
            final(self).wf(),
            final(self).tokens == old(self).tokens,
            moved == (old(self).top < old(self).tokens@.len()),
            final(self).top == stepped(old(self).tokens_view(), old(self).top as int),
    {
        if self.top < self.tokens.len() {
            self.top += 1;
            return true;
        }
        false
    }

    /// Moves one token back, unless the cursor is at the first. Says whether
    /// it moved.
    pub fn prev(&mut self) -> (moved: bool)
        requires
            old(self).wf(),
        ensures
            final(self).wf(),
            final(self).tokens == old(self).tokens,
            moved == (old(self).top > 0),
            moved ==> final(self).top == old(self).top - 1,
            !moved ==> final(self).top == old(self).top,
    {
        if self.top > 0 {
            self.top -= 1;
            return true;
        }
        false
    }

    /// One more than the number of tokens from the current one on: 1 when
    /// the cursor is past the end.
    pub fn remaining(&self) -> (r: usize)
        requires
            self.wf(),
        ensures
            r == self.tokens@.len() - self.top + 1,
    {
        self.tokens.len() - self.top + 1
    }

    /// The current token: the last one where the cursor is past the end.
    pub fn current(&self) -> (t: &Token)
        requires
            self.wf(),
            self.tokens@.len() > 0,
        ensures
            t@ == self.current_view(),
    {
        if self.top > self.tokens.len() - 1 {
            return &self.tokens[self.tokens.len() - 1];
        }
        &self.tokens[self.top]
    }

    /// The token at `i`, which is not the first.
    pub fn get(&self, i: usize) -> (t: &Token)
        requires
            0 < i < self.tokens@.len(),
        ensures
            *t == self.tokens@[i as int],
    {
        &self.tokens[i]
    }

    /// The text of the current token.
    pub fn current_content(&self) -> (s: String)
        requires
            self.wf(),
            self.tokens@.len() > 0,
        ensures
            s@ == self.current_view().content,
    {
        self.current().content().clone()
    }

    /// The text of the current token if it is of kind `token`, else an
    /// error at its position that names the kind and the text found.
    pub fn expect(&self, token: TokenType) -> (r: Result<String, ParserError>)
        requires
            self.wf(),
            self.tokens@.len() > 0,
        ensures
            match r {
                Ok(s) => self.current_view().token_type == token && s@
                    == self.current_view().content,
                Err(e) => self.current_view().token_type != token && e.position == Some(
                    self.current_view().position,
                ) && e.message() == expected_message(
                    token.name_text(),
                    self.current_view().content,
                ),
            },
    {
        if self.current().token_type == token {
            Ok(self.current_content())
        } else {
            let mut message = String::from_str("expected '");
            message.append(token.name());
            message.append("', found '");
            message.append(self.current_content().as_str());
            message.append("'");
            Err(ParserError::new_pos(self.current().position, message.as_str()))
        }
    }

    /// The text of the current token if it is `content`, else an error at
    /// its position that names the text wanted and the text found.
    pub fn expect_content(&self, content: &str) -> (r: Result<String, ParserError>)
        requires
            self.wf(),
            self.tokens@.len() > 0,
        ensures
            match r {
                Ok(s) => self.current_view().content == content@ && s@ == content@,
                Err(e) => self.current_view().content != content@ && e.position == Some(
                    self.current_view().position,
                ) && e.message() == expected_message(content@, self.current_view().content),
            },
    {
        let found = self.current_content();
        if str_equal(found.as_str(), content) {
            Ok(found)
        } else {
            let mut message = String::from_str("expected '");
            message.append(content);
            message.append("', found '");
            message.append(found.as_str());
            message.append("'");
            Err(ParserError::new_pos(self.current().position, message.as_str()))
        }
    }

    /// The tokens from the current one on if their texts are those of
    /// `sequence`, in order; else a message that names the first text that
    /// is missing and what stands in its place. The first token of all
    /// cannot be handed out.
    pub fn expect_contents(&self, sequence: Vec<String>) -> (r: Result<Vec<&Token>, String>)
        requires
            self.wf(),
            !(self.top == 0 && sequence@.len() > 0 && self.tokens@.len() > 0 && sequence@[0]@
                == self.tokens@[0].content@),
        ensures
            match first_mismatch(self.tokens_view(), self.top as int, sequence@, 0) {
                None => r matches Ok(found) && found@.len() == sequence@.len() && forall|i: int|
                    0 <= i < sequence@.len() ==> *(#[trigger] found@[i]) == self.tokens@[self.top
                        + i],
                Some(k) => r matches Err(message) && if self.top + k >= self.tokens@.len() {
                    message@ == expected_at_end_message(sequence@[k]@)
                } else {
                    message@ == expected_message(
                        sequence@[k]@,
                        self.tokens@[self.top + k].content@,
                    )
                },
            },
    {
        let mut res: Vec<&Token> = Vec::new();
        let mut accum: usize = 0;
        while accum < sequence.len()
            invariant
                self.wf(),
                accum <= sequence@.len(),
                !(self.top == 0 && sequence@.len() > 0 && self.tokens@.len() > 0 && sequence@[0]@
                    == self.tokens@[0].content@),
                first_mismatch(self.tokens_view(), self.top as int, sequence@, 0)
                    == first_mismatch(self.tokens_view(), self.top as int, sequence@, accum as int),
                res@.len() == accum,
                self.top + accum <= self.tokens@.len(),
                forall|i: int|
                    0 <= i < accum ==> *(#[trigger] res@[i]) == self.tokens@[self.top + i],
            decreases sequence@.len() - accum,
        {
            let c = &sequence[accum];
            if accum >= self.tokens.len() - self.top {
                let mut message = String::from_str("expected '");
                message.append(c.as_str());
                message.append("', found end of source >:(");
                return Err(message);
            }
            assert(self.tokens_view()[self.top + accum] == self.tokens@[self.top + accum]@);
            let found = self.tokens[self.top + accum].content();
            if !str_equal(c.as_str(), found.as_str()) {
                let mut message = String::from_str("expected '");
                message.append(c.as_str());
                message.append("', found '");
                message.append(found.as_str());
                message.append("'");
                return Err(message);
            }
            res.push(self.get(self.top + accum));
            accum += 1;
        }
        Ok(res)
    }
}

} // verus!
