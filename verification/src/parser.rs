//! The parser: tokens to a sequence of statements.

use vstd::prelude::*;
use crate::ast::{
    expressions_view, statements_view, Arm, Assignment, Call, Expression, ExpressionView, Function,
    Index, Operand, Operation, Statement, StatementView,
};
use crate::error::ParserError;
use crate::grammar::{
    arguments, arm, assignment, expression, function, function_items, has_more, index, is_blank,
    lemma_skipped, operands, operation, parameters, program, skipped, statement, term, try_call,
    Failure, Parsed,
};
use crate::text::str_equal;
use crate::token::{TokenType, TokenView};
use crate::traveler::{current_at, Traveler};

verus! {

/// Whether an error is the failure `f`.
pub open spec fn fails_as(e: ParserError, f: Failure) -> bool {
    e.message() == f.message && e.position == f.position
}

/// Whether `r`, with the cursor at `top` afterwards, is what the grammar
/// gives for an expression.
pub open spec fn expression_parsed(
    r: Result<Expression, ParserError>,
    top: int,
    model: Parsed<ExpressionView>,
) -> bool {
    match r {
        Ok(e) => model == Ok::<(ExpressionView, int), Failure>((e@, top)),
        Err(e) => model is Err && fails_as(e, model->Err_0),
    }
}

/// Whether `r`, with the cursor at `top` afterwards, is what the grammar
/// gives for a statement.
pub open spec fn statement_parsed(
    r: Result<Statement, ParserError>,
    top: int,
    model: Parsed<StatementView>,
) -> bool {
    match r {
        Ok(s) => model == Ok::<(StatementView, int), Failure>((s@, top)),
        Err(e) => model is Err && fails_as(e, model->Err_0),
    }
}

/// Whether `r`, with the cursor at `top` afterwards, is what the grammar
/// gives for a list of expressions.
pub open spec fn expressions_parsed(
    r: Result<Vec<Expression>, ParserError>,
    top: int,
    model: Parsed<Seq<ExpressionView>>,
) -> bool {
    match r {
        Ok(v) => model == Ok::<(Seq<ExpressionView>, int), Failure>((expressions_view(v@), top)),
        Err(e) => model is Err && fails_as(e, model->Err_0),
    }
}

/// Whether `r`, with the cursor at `top` afterwards, is what the grammar
/// gives for a list of statements.
pub open spec fn statements_parsed(
    r: Result<Vec<Statement>, ParserError>,
    top: int,
    model: Parsed<Seq<StatementView>>,
) -> bool {
    match r {
        Ok(v) => model == Ok::<(Seq<StatementView>, int), Failure>((statements_view(v@), top)),
        Err(e) => model is Err && fails_as(e, model->Err_0),
    }
}

/// Whether a statement is the end-of-input mark.
pub open spec fn is_end_mark(s: StatementView) -> bool {
    s matches StatementView::Expression(e) && *e is EOF
}

/// The parser, which holds the tokens and the cursor.
pub struct Parser {
    pub traveler: Traveler,
}

impl Parser {
    pub fn new(traveler: Traveler) -> (p: Parser)
        ensures
            p.traveler == traveler,
    {
        Parser { traveler }
    }

    /// The tokens as mathematical values.
    pub open spec fn tokens(&self) -> Seq<TokenView> {
        self.traveler.tokens_view()
    }

    /// The place of the cursor.
    pub open spec fn top(&self) -> int {
        self.traveler.top as int
    }

    /// The cursor is within the tokens, and there is a token.
    pub open spec fn wf(&self) -> bool {
        self.traveler.wf() && self.traveler.tokens@.len() > 0
    }

    /// Whether the cursor is past the last token.
    fn at_end(&self) -> (r: bool)
        requires
            self.traveler.wf(),
        ensures
            r == (self.top() >= self.tokens().len()),
    {
        self.traveler.remaining() < 2
    }

    /// Whether the current token holds `text`.
    fn content_is(&self, text: &str) -> (r: bool)
        requires
            self.wf(),
        ensures
            r == (current_at(self.tokens(), self.top()).content == text@),
    {
        str_equal(self.traveler.current().content().as_str(), text)
    }

    /// Whether the current token only separates.
    fn blank_here(&self) -> (r: bool)
        requires
            self.wf(),
        ensures
            r == is_blank(current_at(self.tokens(), self.top())),
    {
        self.content_is("\n") || self.traveler.current().token_type == TokenType::EOL
            || self.traveler.current().token_type == TokenType::Indent
    }

    /// An error at the current token.
    fn error_here(&self, message: &str) -> (e: ParserError)
        requires
            self.wf(),
        ensures
            e.message() == message@,
            e.position == Some(current_at(self.tokens(), self.top()).position),
    {
        ParserError::new_pos(self.traveler.current().position, message)
    }

    /// An error at the current token, whose message is `prefix` and the text
    /// of the token.
    fn error_with_content(&self, prefix: &str) -> (e: ParserError)
        requires
            self.wf(),
        ensures
            e.message() == prefix@ + current_at(self.tokens(), self.top()).content,
            e.position == Some(current_at(self.tokens(), self.top()).position),
    {
        let mut message = String::from_str(prefix);
        message.append(self.traveler.current_content().as_str());
        ParserError::new_pos(self.traveler.current().position, message.as_str())
    }

    /// Moves the cursor over the tokens that only separate.
    pub fn skip_whitespace(&mut self) -> (r: Result<(), ParserError>)
        requires
            old(self).wf(),
        ensures
            r is Ok,
            final(self).wf(),
            final(self).traveler.tokens == old(self).traveler.tokens,
            final(self).top() == skipped(old(self).tokens(), old(self).top()),
    {
        while !self.at_end() && self.blank_here()
            invariant
                self.wf(),
                self.traveler.tokens == old(self).traveler.tokens,
                old(self).top() <= self.top(),
                skipped(self.tokens(), self.top()) == skipped(old(self).tokens(), old(self).top()),
            decreases self.tokens().len() - self.top(),
        {
            self.traveler.next();
        }
        Ok(())
    }

    /// Parses one unit of an expression.
    pub fn term(&mut self) -> (r: Result<Expression, ParserError>)
        requires
            old(self).traveler.wf(),
        ensures
            final(self).traveler.wf(),
            final(self).traveler.tokens == old(self).traveler.tokens,
            expression_parsed(r, final(self).top(), term(old(self).tokens(), old(self).top())),
            r is Ok ==> old(self).top() <= final(self).top(),
            (r matches Ok(e) && !(e@ is EOF)) ==> old(self).top() < final(self).top(),
            old(self).top() < old(self).tokens().len() ==> (r matches Ok(e) ==> !(e@ is EOF)),
        decreases old(self).tokens().len() - old(self).top(), 1nat,
    {
        if self.traveler.remaining() < 2 {
            return Ok(Expression::EOF);
        }
        let kind = self.traveler.current().token_type;
        match kind {
            TokenType::IntLiteral | TokenType::FloatLiteral => {
                let a = Expression::Number(self.traveler.current_content());
                self.traveler.next();
                Ok(a)
            },
            TokenType::BoolLiteral => {
                let a = Expression::Bool(self.content_is("true"));
                self.traveler.next();
                Ok(a)
            },
            TokenType::StringLiteral => {
                let a = Expression::Str(self.traveler.current_content());
                self.traveler.next();
                Ok(a)
            },
            TokenType::CharLiteral => {
                let content = self.traveler.current_content();
                if content.as_str().unicode_len() > 0 {
                    let a = Expression::Char(content.as_str().get_char(0));
                    self.traveler.next();
                    Ok(a)
                } else {
                    Err(self.error_with_content("unexpected: "))
                }
            },
            TokenType::Identifier => {
                let a = Expression::Identifier(
                    self.traveler.current_content(),
                    self.traveler.current().position,
                );
                self.traveler.next();
                if self.traveler.remaining() > 1 {
                    if self.content_is(",") || self.content_is(")") {
                        Ok(a)
                    } else if self.content_is("[") {
                        self.index(a)
                    } else {
                        self.try_call(a)
                    }
                } else {
                    Ok(a)
                }
            },
            TokenType::Symbol => {
                if self.content_is("(") {
                    self.group()
                } else if self.content_is("{") {
                    self.function()
                } else {
                    Err(self.error_with_content("unexpected symbol: "))
                }
            },
            _ => Err(self.error_with_content("unexpected: ")),
        }
    }

    /// Parses a group, whose opening parenthesis is the current token, and
    /// what may follow it: an index or the arguments of a call.
    fn group(&mut self) -> (r: Result<Expression, ParserError>)
        requires
            old(self).wf(),
            old(self).top() < old(self).tokens().len(),
            old(self).tokens()[old(self).top()].token_type == TokenType::Symbol,
            old(self).tokens()[old(self).top()].content == "("@,
        ensures
            final(self).wf(),
            final(self).traveler.tokens == old(self).traveler.tokens,
            expression_parsed(r, final(self).top(), term(old(self).tokens(), old(self).top())),
            r is Ok ==> old(self).top() < final(self).top(),
            r matches Ok(e) ==> !(e@ is EOF),
        decreases old(self).tokens().len() - old(self).top(), 0nat,
    {
        self.traveler.next();
        let a = match self.expression() {
            Ok(a) => a,
            Err(e) => {
                return Err(e);
            },
        };
        match a {
            Expression::EOF => {
                return Err(self.error_here("expected expression, found end of input"));
            },
            _ => {},
        }
        proof {
            lemma_skipped(self.tokens(), self.top());
        }
        let _ = self.skip_whitespace();
        match self.traveler.expect_content(")") {
            Ok(_) => {},
            Err(e) => {
                return Err(e);
            },
        }
        self.traveler.next();
        if self.traveler.remaining() < 2 {
            Ok(a)
        } else if self.content_is("[") {
            self.index(a)
        } else {
            self.try_call(a)
        }
    }

    /// Parses the arguments of a call of `callee` where the current token
    /// may start one, and gives `callee` back where it may not.
    fn try_call(&mut self, callee: Expression) -> (r: Result<Expression, ParserError>)
        requires
            old(self).wf(),
            !(callee@ is EOF),
        ensures
            final(self).wf(),
            final(self).traveler.tokens == old(self).traveler.tokens,
            expression_parsed(
                r,
                final(self).top(),
                try_call(old(self).tokens(), old(self).top(), callee@),
            ),
            r is Ok ==> old(self).top() <= final(self).top(),
            r matches Ok(e) ==> !(e@ is EOF),
        decreases old(self).tokens().len() - old(self).top(), 4nat,
    {
        if self.traveler.remaining() < 2 {
            return Ok(callee);
        }
        match self.traveler.current().token_type {
            TokenType::IntLiteral
            | TokenType::FloatLiteral
            | TokenType::BoolLiteral
            | TokenType::StringLiteral
            | TokenType::CharLiteral
            | TokenType::Identifier => self.call(callee),
            TokenType::Symbol => {
                if self.content_is("(") {
                    self.call(callee)
                } else {
                    Ok(callee)
                }
            },
            _ => Ok(callee),
        }
    }

    /// Parses the arguments of a call of `caller`.
    fn call(&mut self, caller: Expression) -> (r: Result<Expression, ParserError>)
        requires
            old(self).wf(),
        ensures
            final(self).wf(),
            final(self).traveler.tokens == old(self).traveler.tokens,
            match arguments(old(self).tokens(), old(self).top(), Seq::empty()) {
                Err(f) => r matches Err(e) && fails_as(e, f),
                Ok((args, after)) => (r matches Ok(e) && e@ == ExpressionView::Call {
                    callee: Box::new(caller@),
                    args,
                    position: current_at(old(self).tokens(), after).position,
                }) && final(self).top() == after,
            },
            r is Ok ==> old(self).top() <= final(self).top(),
        decreases old(self).tokens().len() - old(self).top(), 3nat,
    {
        let mut args: Vec<Expression> = Vec::new();
        assert(expressions_view(args@) =~= Seq::empty());
        loop
            invariant
                self.wf(),
                self.traveler.tokens == old(self).traveler.tokens,
                old(self).top() <= self.top(),
                arguments(self.tokens(), self.top(), expressions_view(args@)) == arguments(
                    old(self).tokens(),
                    old(self).top(),
                    Seq::empty(),
                ),
            ensures
                self.wf(),
                self.traveler.tokens == old(self).traveler.tokens,
                old(self).top() <= self.top(),
                arguments(old(self).tokens(), old(self).top(), Seq::empty()) == Ok::<
                    (Seq<ExpressionView>, int),
                    Failure,
                >((expressions_view(args@), self.top())),
            decreases self.tokens().len() - self.top(),
        {
            if self.traveler.remaining() < 2 || self.content_is("\n") {
                break ;
            }
            let comma = self.content_is(",");
            if comma {
                self.traveler.next();
            } else if args.len() != 0 {
                break ;
            }
            let expr = match self.expression() {
                Ok(expr) => expr,
                Err(e) => {
                    return Err(e);
                },
            };
            match expr {
                Expression::EOF => {
                    break ;
                },
                _ => {},
            }
            assert(expressions_view(args@.push(expr)) =~= expressions_view(args@).push(expr@));
            args.push(expr);
        }
        Ok(
            Expression::Call(
                Call {
                    callee: Box::new(caller),
                    args,
                    position: self.traveler.current().position,
                },
            ),
        )
    }

    /// Parses an index into `id`, whose opening bracket is the current
    /// token.
    fn index(&mut self, id: Expression) -> (r: Result<Expression, ParserError>)
        requires
            old(self).wf(),
            old(self).top() < old(self).tokens().len(),
        ensures
            final(self).wf(),
            final(self).traveler.tokens == old(self).traveler.tokens,
            expression_parsed(
                r,
                final(self).top(),
                index(old(self).tokens(), old(self).top(), id@),
            ),
            r is Ok ==> old(self).top() < final(self).top(),
            r matches Ok(e) ==> !(e@ is EOF),
        decreases old(self).tokens().len() - old(self).top(), 0nat,
    {
        self.traveler.next();
        let index = match self.expression() {
            Ok(index) => index,
            Err(e) => {
                return Err(e);
            },
        };
        match index {
            Expression::EOF => {
                return Err(self.error_here("expected expression, found end of input"));
            },
            _ => {},
        }
        match self.traveler.expect_content("]") {
            Ok(_) => {},
            Err(e) => {
                return Err(e);
            },
        }
        self.traveler.next();
        Ok(
            Expression::Index(
                Index {
                    id: Box::new(id),
                    index: Box::new(index),
                    position: self.traveler.current().position,
                },
            ),
        )
    }

    /// Parses an expression.
    fn expression(&mut self) -> (r: Result<Expression, ParserError>)
        requires
            old(self).wf(),
        ensures
            final(self).wf(),
            final(self).traveler.tokens == old(self).traveler.tokens,
            expression_parsed(
                r,
                final(self).top(),
                expression(old(self).tokens(), old(self).top()),
            ),
            r is Ok ==> old(self).top() <= final(self).top(),
            (r matches Ok(e) && !(e@ is EOF)) ==> old(self).top() < final(self).top(),
            has_more(old(self).tokens(), old(self).top()) ==> (r matches Ok(e) ==> !(e@ is EOF)),
        decreases old(self).tokens().len() - old(self).top(), 2nat,
    {
        proof {
            lemma_skipped(self.tokens(), self.top());
        }
        let _ = self.skip_whitespace();
        let expr = match self.term() {
            Ok(expr) => expr,
            Err(e) => {
                return Err(e);
            },
        };
        match expr {
            Expression::EOF => {
                return Ok(expr);
            },
            _ => {},
        }
        if self.traveler.remaining() > 1 {
            proof {
                lemma_skipped(self.tokens(), self.top());
            }
            let _ = self.skip_whitespace();
            if self.traveler.remaining() > 1 && self.traveler.current().token_type
                == TokenType::Operator {
                return self.operation(expr);
            }
        }
        Ok(expr)
    }

    /// Parses the operation that starts with `expression` and the operator
    /// that is the current token.
    fn operation(&mut self, expression: Expression) -> (r: Result<Expression, ParserError>)
        requires
            old(self).wf(),
            old(self).top() < old(self).tokens().len(),
        ensures
            final(self).wf(),
            final(self).traveler.tokens == old(self).traveler.tokens,
            expression_parsed(
                r,
                final(self).top(),
                operation(old(self).tokens(), old(self).top(), expression@),
            ),
            r is Ok ==> old(self).top() < final(self).top(),
            r matches Ok(e) ==> !(e@ is EOF),
        decreases old(self).tokens().len() - old(self).top(), 0nat,
    {
        let mut pending = match Operand::from_str(self.traveler.current().content().as_str()) {
            Some(pending) => pending,
            None => {
                return Err(self.error_with_content("unexpected operator: "));
            },
        };
        self.traveler.next();
        if self.traveler.remaining() > 1 && self.content_is("\n") {
            self.traveler.next();
        }
        let term = match self.term() {
            Ok(term) => term,
            Err(e) => {
                return Err(e);
            },
        };
        match term {
            Expression::EOF => {
                return Err(self.error_here("expected expression, found end of input"));
            },
            _ => {},
        }
        let mut left = expression;
        let mut right = term;
        loop
            invariant
                self.wf(),
                self.traveler.tokens == old(self).traveler.tokens,
                old(self).top() < self.top(),
                operands(self.tokens(), self.top(), left@, pending, right@) == operation(
                    old(self).tokens(),
                    old(self).top(),
                    expression@,
                ),
            ensures
                self.wf(),
                self.traveler.tokens == old(self).traveler.tokens,
                old(self).top() < self.top(),
                operands(self.tokens(), self.top(), left@, pending, right@) == operation(
                    old(self).tokens(),
                    old(self).top(),
                    expression@,
                ),
                !(self.top() < self.tokens().len() && self.tokens()[self.top()].token_type
                    == TokenType::Operator),
            decreases self.tokens().len() - self.top(),
        {
            if self.traveler.remaining() < 2 || self.traveler.current().token_type
                != TokenType::Operator {
                break ;
            }
            let next = match Operand::from_str(self.traveler.current().content().as_str()) {
                Some(next) => next,
                None => {
                    return Err(self.error_with_content("unexpected operator: "));
                },
            };
            self.traveler.next();
            let position = self.traveler.current().position;
            let term = match self.term() {
                Ok(term) => term,
                Err(e) => {
                    return Err(e);
                },
            };
            match term {
                Expression::EOF => {
                    return Err(self.error_here("expected expression, found end of input"));
                },
                _ => {},
            }
            if next.1 >= pending.1 {
                left =
                Expression::Operation(
                    Operation {
                        left: Box::new(left),
                        op: pending.0,
                        right: Box::new(right),
                        position,
                    },
                );
                right = term;
                pending = next;
            } else {
                right =
                Expression::Operation(
                    Operation {
                        left: Box::new(right),
                        op: next.0,
                        right: Box::new(term),
                        position: self.traveler.current().position,
                    },
                );
            }
        }
        Ok(
            Expression::Operation(
                Operation {
                    left: Box::new(left),
                    op: pending.0,
                    right: Box::new(right),
                    position: self.traveler.current().position,
                },
            ),
        )
    }

    /// Parses a function literal, whose opening brace is the current token.
    fn function(&mut self) -> (r: Result<Expression, ParserError>)
        requires
            old(self).wf(),
            old(self).top() < old(self).tokens().len(),
        ensures
            final(self).wf(),
            final(self).traveler.tokens == old(self).traveler.tokens,
            expression_parsed(r, final(self).top(), function(old(self).tokens(), old(self).top())),
            r is Ok ==> old(self).top() < final(self).top(),
            r matches Ok(e) ==> !(e@ is EOF),
        decreases old(self).tokens().len() - old(self).top(), 0nat,
    {
        self.traveler.next();
        proof {
            lemma_skipped(self.tokens(), self.top());
        }
        let _ = self.skip_whitespace();
        let ghost start = self.top();
        let mut arms: Vec<Statement> = Vec::new();
        assert(statements_view(arms@) =~= Seq::empty());
        loop
            invariant_except_break
                function_items(self.tokens(), self.top(), statements_view(arms@))
                    == function_items(old(self).tokens(), start, Seq::empty()),
            invariant
                self.wf(),
                self.traveler.tokens == old(self).traveler.tokens,
                old(self).top() < start <= self.top(),
                old(self).top() < old(self).tokens().len(),
                start == skipped(old(self).tokens(), old(self).top() + 1),
            ensures
                self.wf(),
                self.traveler.tokens == old(self).traveler.tokens,
                old(self).top() < start <= self.top(),
                function_items(old(self).tokens(), start, Seq::empty()) == Ok::<
                    (Seq<StatementView>, int),
                    Failure,
                >((statements_view(arms@), self.top())),
            decreases self.tokens().len() - self.top(),
        {
            match self.function_item(&mut arms) {
                Ok(true) => {},
                Ok(false) => {
                    break ;
                },
                Err(e) => {
                    return Err(e);
                },
            }
        }
        match self.traveler.expect_content("}") {
            Ok(_) => {},
            Err(e) => {
                return Err(e);
            },
        }
        self.traveler.next();
        let ghost items = statements_view(arms@);
        let block = Expression::Block(arms);
        assert(block@ == ExpressionView::Block(items));
        Ok(
            Expression::Function(
                Function { arms: Box::new(block), position: self.traveler.current().position },
            ),
        )
    }

    /// Parses the next arm or statement of a function literal and puts it
    /// behind `arms`. Says whether there was one: there is none at the
    /// closing brace and at the end of the tokens.
    #[verifier::rlimit(60)]
    fn function_item(&mut self, arms: &mut Vec<Statement>) -> (r: Result<bool, ParserError>)
        requires
            old(self).wf(),
        ensures
            final(self).wf(),
            final(self).traveler.tokens == old(self).traveler.tokens,
            r is Ok ==> old(self).top() <= final(self).top(),
            match r {
                Ok(true) => old(self).top() < final(self).top() && function_items(
                    old(self).tokens(),
                    old(self).top(),
                    statements_view(old(arms)@),
                ) == function_items(
                    old(self).tokens(),
                    final(self).top(),
                    statements_view(final(arms)@),
                ),
                Ok(false) => final(arms)@ == old(arms)@ && function_items(
                    old(self).tokens(),
                    old(self).top(),
                    statements_view(old(arms)@),
                ) == Ok::<(Seq<StatementView>, int), Failure>(
                    (statements_view(old(arms)@), final(self).top()),
                ),
                Err(e) => function_items(
                    old(self).tokens(),
                    old(self).top(),
                    statements_view(old(arms)@),
                ) is Err && fails_as(
                    e,
                    function_items(
                        old(self).tokens(),
                        old(self).top(),
                        statements_view(old(arms)@),
                    )->Err_0,
                ),
            },
        decreases old(self).tokens().len() - old(self).top(), 5nat,
    {
        if self.traveler.remaining() < 2 || self.content_is("}") {
            return Ok(false);
        }
        if self.content_is("|") {
            let arm = match self.arm() {
                Ok(arm) => arm,
                Err(e) => {
                    return Err(e);
                },
            };
            let found = Statement::Expression(Box::new(arm));
            assert(statements_view(arms@.push(found)) =~= statements_view(arms@).push(found@));
            arms.push(found);
            Ok(true)
        } else {
            proof {
                lemma_skipped(self.tokens(), self.top());
            }
            let _ = self.skip_whitespace();
            if self.traveler.remaining() < 2 || self.content_is("}") {
                return Ok(false);
            }
            proof {
                lemma_skipped(self.tokens(), self.top());
            }
            let found = match self.statement() {
                Ok(found) => found,
                Err(e) => {
                    return Err(e);
                },
            };
            assert(statements_view(arms@.push(found)) =~= statements_view(arms@).push(found@));
            arms.push(found);
            Ok(true)
        }
    }

    /// Parses an arm, whose opening bar is the current token.
    #[verifier::rlimit(60)]
    fn arm(&mut self) -> (r: Result<Expression, ParserError>)
        requires
            old(self).wf(),
            old(self).top() < old(self).tokens().len(),
        ensures
            final(self).wf(),
            final(self).traveler.tokens == old(self).traveler.tokens,
            expression_parsed(r, final(self).top(), arm(old(self).tokens(), old(self).top())),
            r is Ok ==> old(self).top() < final(self).top(),
        decreases old(self).tokens().len() - old(self).top(), 4nat,
    {
        match self.traveler.expect_content("|") {
            Ok(_) => {},
            Err(e) => {
                return Err(e);
            },
        }
        self.traveler.next();
        let params = match self.parameters() {
            Ok(params) => params,
            Err(e) => {
                return Err(e);
            },
        };
        match self.traveler.expect_content("|") {
            Ok(_) => {},
            Err(e) => {
                return Err(e);
            },
        }
        self.traveler.next();
        let body = match self.statement() {
            Ok(body) => body,
            Err(e) => {
                return Err(e);
            },
        };
        let missing = match &body {
            Statement::Expression(e) => match &**e {
                Expression::EOF => true,
                _ => false,
            },
            _ => false,
        };
        if missing {
            return Err(self.error_here("expected expression, found end of input"));
        }
        proof {
            lemma_skipped(self.tokens(), self.top());
        }
        let _ = self.skip_whitespace();
        Ok(
            Expression::Arm(
                Arm { params, body: Box::new(body), position: self.traveler.current().position },
            ),
        )
    }

    /// Parses the parameters of an arm, up to its closing bar.
    fn parameters(&mut self) -> (r: Result<Vec<Expression>, ParserError>)
        requires
            old(self).wf(),
        ensures
            final(self).wf(),
            final(self).traveler.tokens == old(self).traveler.tokens,
            expressions_parsed(
                r,
                final(self).top(),
                parameters(old(self).tokens(), old(self).top(), Seq::empty()),
            ),
            r is Ok ==> old(self).top() <= final(self).top(),
        decreases old(self).tokens().len() - old(self).top(), 3nat,
    {
        let mut params: Vec<Expression> = Vec::new();
        assert(expressions_view(params@) =~= Seq::empty());
        loop
            invariant
                self.wf(),
                self.traveler.tokens == old(self).traveler.tokens,
                old(self).top() <= self.top(),
                parameters(self.tokens(), self.top(), expressions_view(params@)) == parameters(
                    old(self).tokens(),
                    old(self).top(),
                    Seq::empty(),
                ),
            ensures
                self.wf(),
                self.traveler.tokens == old(self).traveler.tokens,
                old(self).top() <= self.top(),
                parameters(old(self).tokens(), old(self).top(), Seq::empty()) == Ok::<
                    (Seq<ExpressionView>, int),
                    Failure,
                >((expressions_view(params@), self.top())),
            decreases self.tokens().len() - self.top(),
        {
            if self.traveler.remaining() < 2 || self.content_is("|") {
                break ;
            }
            let param = match self.expression() {
                Ok(param) => param,
                Err(e) => {
                    return Err(e);
                },
            };
            match param {
                Expression::EOF => {
                    return Err(self.error_here("expected expression, found end of input"));
                },
                _ => {},
            }
            assert(expressions_view(params@.push(param)) =~= expressions_view(params@).push(
                param@,
            ));
            params.push(param);
            if !self.content_is("|") {
                match self.traveler.expect_content(",") {
                    Ok(_) => {},
                    Err(e) => {
                        return Err(e);
                    },
                }
                self.traveler.next();
            }
        }
        Ok(params)
    }

    /// Parses an assignment to `left`, whose `=` is the current token.
    fn assignment(&mut self, left: Expression) -> (r: Result<Statement, ParserError>)
        requires
            old(self).wf(),
        ensures
            final(self).wf(),
            final(self).traveler.tokens == old(self).traveler.tokens,
            statement_parsed(
                r,
                final(self).top(),
                assignment(old(self).tokens(), old(self).top(), left@),
            ),
            r is Ok ==> old(self).top() <= final(self).top(),
            r matches Ok(s) ==> !is_end_mark(s@),
        decreases old(self).tokens().len() - old(self).top(), 3nat,
    {
        self.traveler.next();
        if self.content_is("\n") {
            Err(self.error_here("expected expression, found: \"\\n\""))
        } else {
            let right = match self.expression() {
                Ok(right) => right,
                Err(e) => {
                    return Err(e);
                },
            };
            match right {
                Expression::EOF => {
                    return Err(self.error_here("expected expression, found end of input"));
                },
                _ => {},
            }
            Ok(
                Statement::Assignment(
                    Assignment {
                        left: Box::new(left),
                        right: Box::new(right),
                        position: self.traveler.current().position,
                    },
                ),
            )
        }
    }

    /// Parses a statement.
    fn statement(&mut self) -> (r: Result<Statement, ParserError>)
        requires
            old(self).wf(),
        ensures
            final(self).wf(),
            final(self).traveler.tokens == old(self).traveler.tokens,
            statement_parsed(r, final(self).top(), statement(old(self).tokens(), old(self).top())),
            r is Ok ==> old(self).top() <= final(self).top(),
            (r matches Ok(s) && !is_end_mark(s@)) ==> old(self).top() < final(self).top(),
            has_more(old(self).tokens(), old(self).top()) ==> (r matches Ok(s) ==> !is_end_mark(
                s@,
            )),
        decreases old(self).tokens().len() - old(self).top(), 3nat,
    {
        proof {
            lemma_skipped(self.tokens(), self.top());
        }
        let _ = self.skip_whitespace();
        if self.traveler.remaining() < 2 {
            return Ok(Statement::Expression(Box::new(Expression::EOF)));
        }
        proof {
            lemma_skipped(self.tokens(), self.top());
        }
        if self.traveler.current().token_type == TokenType::Identifier {
            let a = Expression::Identifier(
                self.traveler.current_content(),
                self.traveler.current().position,
            );
            self.traveler.next();
            if self.content_is("=") {
                return self.assignment(a);
            }
            self.traveler.prev();
        }
        match self.expression() {
            Ok(found) => Ok(Statement::Expression(Box::new(found))),
            Err(e) => Err(e),
        }
    }

    /// Parses the program: every statement up to the end of the tokens.
    pub fn parse(&mut self) -> (r: Result<Vec<Statement>, ParserError>)
        requires
            old(self).traveler.wf(),
        ensures
            final(self).traveler.wf(),
            final(self).traveler.tokens == old(self).traveler.tokens,
            match program(old(self).tokens(), old(self).top(), Seq::empty()) {
                Ok(statements) => r matches Ok(v) && statements_view(v@) == statements,
                Err(f) => r matches Err(e) && fails_as(e, f),
            },
            r is Ok ==> final(self).top() == old(self).tokens().len(),
    {
        let mut stack: Vec<Statement> = Vec::new();
        assert(statements_view(stack@) =~= Seq::empty());
        while self.traveler.remaining() > 1
            invariant
                self.traveler.wf(),
                self.traveler.tokens == old(self).traveler.tokens,
                program(self.tokens(), self.top(), statements_view(stack@)) == program(
                    old(self).tokens(),
                    old(self).top(),
                    Seq::empty(),
                ),
            ensures
                self.traveler.wf(),
                self.traveler.tokens == old(self).traveler.tokens,
                self.top() == self.tokens().len(),
                program(old(self).tokens(), old(self).top(), Seq::empty()) == Ok::<
                    Seq<StatementView>,
                    Failure,
                >(statements_view(stack@)),
            decreases self.tokens().len() - self.top(),
        {
            proof {
                lemma_skipped(self.tokens(), self.top());
            }
            let _ = self.skip_whitespace();
            if self.traveler.remaining() < 2 {
                break ;
            }
            proof {
                lemma_skipped(self.tokens(), self.top());
            }
            let found = match self.statement() {
                Ok(found) => found,
                Err(e) => {
                    return Err(e);
                },
            };
            assert(statements_view(stack@.push(found)) =~= statements_view(stack@).push(found@));
            stack.push(found);
        }
        Ok(stack)
    }
}

} // verus!
