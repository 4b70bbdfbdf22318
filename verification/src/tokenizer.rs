//! A cursor over the characters of the source text that keeps track of the
//! position and can go back to a checkpoint.

use vstd::prelude::*;
use crate::error::LexError;
use crate::matcher::{outcome_of, Matcher};
use crate::text::{chars_of, classes_of, classify_all, CharClass};
use crate::token::{Token, TokenPosition, TokenType, TokenView};

verus! {

/// The line on which the character after the first `n` stands: one more than
/// the number of line feeds among those `n`.
pub open spec fn line_at(items: Seq<char>, n: int) -> int
    decreases n,
{
    if n <= 0 {
        1
    } else {
        line_at(items, n - 1) + if items[n - 1] == '\n' {
            1int
        } else {
            0int
        }
    }
}

/// The number of characters between the last line feed among the first `n`
/// characters and the end of those `n`.
pub open spec fn col_at(items: Seq<char>, n: int) -> int
    decreases n,
{
    if n <= 0 {
        0
    } else if items[n - 1] == '\n' {
        0
    } else {
        col_at(items, n - 1) + 1
    }
}

/// The position of the cursor after `n` characters.
pub open spec fn position_at(items: Seq<char>, n: int) -> TokenPosition {
    TokenPosition { line: line_at(items, n) as usize, col: col_at(items, n) as usize }
}

/// Line and column stay within the number of characters read.
pub proof fn lemma_position_bounds(items: Seq<char>, n: int)
    requires
        0 <= n,
    ensures
        1 <= line_at(items, n) <= n + 1,
        0 <= col_at(items, n) <= n,
    decreases n,
{
    if n > 0 {
        lemma_position_bounds(items, n - 1);
    }
}

/// The line of a place in the text is a line of the text: it is at least 1
/// and at most the line on which the text ends.
pub proof fn lemma_line_within_text(items: Seq<char>, at: int)
    requires
        0 <= at <= items.len(),
    ensures
        1 <= line_at(items, at) <= line_at(items, items.len() as int),
    decreases items.len() - at,
{
    lemma_position_bounds(items, at);
    if at < items.len() {
        lemma_line_within_text(items, at + 1);
    }
}

/// The token that marks the end of the text, for a cursor that has read
/// `index` characters: it holds no text, and `index` is its line and its
/// column.
pub open spec fn end_of_stream(index: usize) -> TokenView {
    TokenView {
        token_type: TokenType::EOF,
        position: TokenPosition { line: index, col: index },
        content: Seq::empty(),
    }
}

/// A checkpoint: a place in the text and the position there.
#[derive(Clone, Copy, Debug)]
pub struct Snapshot {
    pub pos: TokenPosition,
    pub index: usize,
}

impl Snapshot {
    pub fn new(index: usize, pos: TokenPosition) -> (s: Snapshot)
        ensures
            s.index == index,
            s.pos == pos,
    {
        Snapshot { index, pos }
    }
}

/// The cursor. `items` holds the characters of the text and `classes` the
/// class of each; `index` counts the characters that were read, `pos` is
/// the position there, and `snapshots` holds the checkpoints, oldest first.
#[derive(Debug)]
pub struct Tokenizer {
    pub pos: TokenPosition,
    pub index: usize,
    pub items: Vec<char>,
    pub classes: Vec<CharClass>,
    pub snapshots: Vec<Snapshot>,
}

impl Tokenizer {
    /// The cursor is within the text, every character has its class, the
    /// position of the cursor is the one that belongs to its place, and so
    /// is that of every checkpoint.
    pub open spec fn wf(&self) -> bool {
        &&& self.index <= self.items@.len() < usize::MAX
        &&& self.classes@.len() == self.items@.len()
        &&& self.pos == position_at(self.items@, self.index as int)
        &&& forall|k: int|
            0 <= k < self.snapshots@.len() ==> {
                &&& (#[trigger] self.snapshots@[k]).index <= self.items@.len()
                &&& self.snapshots@[k].pos == position_at(
                    self.items@,
                    self.snapshots@[k].index as int,
                )
            }
    }

    /// Whether every character was read.
    pub open spec fn at_end(&self) -> bool {
        self.index >= self.items@.len()
    }

    /// Whether the cursor stands where that of `before` stands.
    pub open spec fn stands_as(&self, before: &Tokenizer) -> bool {
        self.index == before.index && self.pos == before.pos
    }

    /// A cursor before the first character of `source`, with the class of
    /// each character as the standard library decides it.
    pub fn new(source: &str) -> (t: Tokenizer)
        requires
            source@.len() < usize::MAX,
        ensures
            t.wf(),
            t.items@ == source@,
            t.classes@ == classes_of(source@),
            t.index == 0,
            t.snapshots@.len() == 0,
    {
        let items = chars_of(source);
        let classes = classify_all(&items);
        Tokenizer::classified(items, classes)
    }

    /// A cursor before the first of the characters `items`, whose classes
    /// are `classes`.
    pub fn classified(items: Vec<char>, classes: Vec<CharClass>) -> (t: Tokenizer)
        requires
            items@.len() < usize::MAX,
            classes@.len() == items@.len(),
        ensures
            t.wf(),
            t.items == items,
            t.classes == classes,
            t.index == 0,
            t.snapshots@.len() == 0,
    {
        Tokenizer { index: 0, pos: TokenPosition::default(), items, classes, snapshots: Vec::new() }
    }

    /// Whether every character was read.
    pub fn end(&self) -> (r: bool)
        requires
            self.wf(),
        ensures
            r == self.at_end(),
    {
        self.end_n(0)
    }

    /// Whether fewer than `lookahead + 1` characters are left.
    pub fn end_n(&self, lookahead: usize) -> (r: bool)
        requires
            self.wf(),
        ensures
            r == (self.index + lookahead >= self.items@.len()),
    {
        lookahead >= self.items.len() - self.index
    }

    /// The next character, which stays unread.
    pub fn peek(&self) -> (r: Option<&char>)
        requires
            self.wf(),
        ensures
            r == self.peeked(0),
    {
        self.peek_n(0)
    }

    /// The character `n` places after the cursor, if the text has one there.
    pub open spec fn peeked(&self, n: int) -> Option<&char> {
        if 0 <= self.index + n < self.items@.len() {
            Some(&self.items@[self.index + n])
        } else {
            None
        }
    }

    /// The character `n` places after the next one, which stays unread.
    pub fn peek_n(&self, n: usize) -> (r: Option<&char>)
        requires
            self.wf(),
        ensures
            r == self.peeked(n as int),
    {
        if self.end_n(n) {
            return None;
        }
        Some(&self.items[self.index + n])
    }

    /// Reads one character, if one is left.
    pub fn read(&mut self) -> (r: Option<char>)
        requires
            old(self).wf(),
        ensures
            final(self).wf(),
            final(self).items == old(self).items,
            final(self).classes == old(self).classes,
            final(self).snapshots == old(self).snapshots,
            match r {
                Some(c) => !old(self).at_end() && c == old(self).items@[old(self).index as int]
                    && final(self).index == old(self).index + 1,
                None => old(self).at_end() && *final(self) == *old(self),
            },
    {
        if self.end() {
            return None;
        }
        self.advance(1);
        Some(self.items[self.index - 1])
    }

    /// Reads one character, if one is left.
    pub fn next(&mut self) -> (r: Option<char>)
        requires
            old(self).wf(),
        ensures
            final(self).wf(),
            final(self).items == old(self).items,
            final(self).classes == old(self).classes,
            final(self).snapshots == old(self).snapshots,
            match r {
                Some(c) => !old(self).at_end() && c == old(self).items@[old(self).index as int]
                    && final(self).index == old(self).index + 1,
                None => old(self).at_end() && *final(self) == *old(self),
            },
    {
        self.read()
    }

    /// Reads `a` characters if that many are left, else none. Each line feed
    /// starts a new line at column 0; any other character moves one column on.
    pub fn advance(&mut self, a: usize)
        requires
            old(self).wf(),
        ensures
            final(self).wf(),
            final(self).items == old(self).items,
            final(self).classes == old(self).classes,
            final(self).snapshots == old(self).snapshots,
            old(self).index + a <= old(self).items@.len() ==> final(self).index == old(self).index
                + a,
            old(self).index + a > old(self).items@.len() ==> *final(self) == *old(self),
    {
        if a <= self.items.len() - self.index {
            let mut k: usize = 0;
            while k < a
                invariant
                    k <= a,
                    self.index + a <= self.items@.len() < usize::MAX,
                    self.pos == position_at(self.items@, self.index + k),
                    self.index == old(self).index,
                    self.items == old(self).items,
                    self.classes == old(self).classes,
                    self.snapshots == old(self).snapshots,
                decreases a - k,
            {
                proof {
                    lemma_position_bounds(self.items@, self.index + k);
                    lemma_position_bounds(self.items@, self.index + k + 1);
                }
                if self.items[self.index + k] == '\n' {
                    self.pos.line += 1;
                    self.pos.col = 0;
                } else {
                    self.pos.col += 1;
                }
                k += 1;
            }
            self.index += a;
        }
    }

    /// Puts a checkpoint at the cursor.
    pub fn take_snapshot(&mut self)
        requires
            old(self).wf(),
        ensures
            final(self).wf(),
            final(self).items == old(self).items,
            final(self).classes == old(self).classes,
            final(self).index == old(self).index,
            final(self).pos == old(self).pos,
            final(self).snapshots@ == old(self).snapshots@.push(
                Snapshot { pos: old(self).pos, index: old(self).index },
            ),
    {
        self.snapshots.push(Snapshot::new(self.index, self.pos));
    }

    /// The newest checkpoint.
    pub fn peek_snapshot(&self) -> (r: Option<&Snapshot>)
        ensures
            self.snapshots@.len() == 0 ==> r is None,
            self.snapshots@.len() > 0 ==> r == Some(&self.snapshots@.last()),
    {
        if self.snapshots.len() == 0 {
            None
        } else {
            Some(&self.snapshots[self.snapshots.len() - 1])
        }
    }

    /// Goes back to the newest checkpoint and drops it.
    pub fn rollback_snapshot(&mut self)
        requires
            old(self).wf(),
            old(self).snapshots@.len() > 0,
        ensures
            final(self).wf(),
            final(self).items == old(self).items,
            final(self).classes == old(self).classes,
            final(self).index == old(self).snapshots@.last().index,
            final(self).pos == old(self).snapshots@.last().pos,
            final(self).snapshots@ == old(self).snapshots@.drop_last(),
    {
        let snapshot = self.snapshots.pop().unwrap();
        self.index = snapshot.index;
        self.pos = snapshot.pos;
    }

    /// Drops the newest checkpoint, if there is one, and stays.
    pub fn commit_snapshot(&mut self)
        requires
            old(self).wf(),
        ensures
            final(self).wf(),
            final(self).items == old(self).items,
            final(self).classes == old(self).classes,
            final(self).index == old(self).index,
            final(self).pos == old(self).pos,
            final(self).snapshots@ == if old(self).snapshots@.len() > 0 {
                old(self).snapshots@.drop_last()
            } else {
                old(self).snapshots@
            },
    {
        self.snapshots.pop();
    }

    /// The position at the newest checkpoint.
    pub fn last_position(&self) -> (p: TokenPosition)
        requires
            self.snapshots@.len() > 0,
        ensures
            p == self.snapshots@.last().pos,
    {
        self.snapshots[self.snapshots.len() - 1].pos
    }

    /// Tries `matcher` at the cursor. At the end of the text the result is
    /// an end-of-stream token. A token found starts at the cursor, which
    /// then stands behind it; where none is found, or the text is malformed,
    /// the cursor stays where it was.
    pub fn try_match_token<M: Matcher>(&mut self, matcher: &M) -> (r: Result<
        Option<Token>,
        LexError,
    >)
        requires
            old(self).wf(),
        ensures
            final(self).wf(),
            final(self).items == old(self).items,
            final(self).classes == old(self).classes,
            final(self).snapshots@ == old(self).snapshots@,
            old(self).at_end() ==> (r matches Ok(Some(t)) && t@ == end_of_stream(old(self).index)),
            !old(self).at_end() ==> outcome_of(
                r,
                matcher.recognise(old(self).items@, old(self).classes@, old(self).index as int),
                old(self).pos,
                final(self).index as int,
            ),
            !(r matches Ok(Some(_)) && !old(self).at_end()) ==> final(self).stands_as(old(self)),
    {
        if self.end() {
            return Ok(
                Some(
                    Token::new(
                        TokenType::EOF,
                        TokenPosition::new(self.index, self.index),
                        String::new(),
                    ),
                ),
            );
        }
        self.take_snapshot();
        match matcher.try_match(self) {
            Ok(Some(t)) => {
                self.commit_snapshot();
                assert(self.snapshots@ =~= old(self).snapshots@);
                Ok(Some(t))
            },
            Ok(None) => {
                self.rollback_snapshot();
                assert(self.snapshots@ =~= old(self).snapshots@);
                Ok(None)
            },
            Err(e) => {
                self.rollback_snapshot();
                assert(self.snapshots@ =~= old(self).snapshots@);
                Err(e)
            },
        }
    }

    /// The number of characters read.
    pub fn index(&self) -> (i: &usize)
        ensures
            *i == self.index,
    {
        &self.index
    }
}

} // verus!
