//! The grammar of the language, as functions from the tokens and the place
//! of the cursor to what the parser gives there.
//!
//! Each function gives the syntax tree that starts at the cursor together
//! with the place behind it, or the failure that ends the parse.
//!
//! A function that goes on behind a part that it has read asks first
//! whether the cursor has moved forward within the tokens, which is what
//! makes the functions well founded. The cursor always has: the module
//! `finished` proves that.

use vstd::prelude::*;
use crate::ast::{ExpressionView, Operand, StatementView};
use crate::token::{TokenPosition, TokenType, TokenView};
use crate::traveler::{current_at, expected_message, stepped};

verus! {

/// Why a sequence of tokens is no program.
pub struct Failure {
    pub message: Seq<char>,
    pub position: Option<TokenPosition>,
}

/// What is parsed at a place, and the place behind it.
pub type Parsed<T> = Result<(T, int), Failure>;

/// Whether a token only separates: a line end, an indentation, or any
/// token whose text is a line feed.
pub open spec fn is_blank(t: TokenView) -> bool {
    t.content == "\n"@ || t.token_type == TokenType::EOL || t.token_type == TokenType::Indent
}

/// The first place at or after `top` that holds a token that does not only
/// separate; the number of tokens where there is none.
pub open spec fn skipped(tokens: Seq<TokenView>, top: int) -> int
    decreases tokens.len() - top,
{
    if 0 <= top < tokens.len() && is_blank(tokens[top]) {
        skipped(tokens, top + 1)
    } else {
        top
    }
}

/// Whether a token that does not only separate stands at or after `top`.
pub open spec fn has_more(tokens: Seq<TokenView>, top: int) -> bool {
    skipped(tokens, top) < tokens.len()
}

/// Skipping goes forward, stays within the tokens, and stops at a token
/// that does not only separate.
pub proof fn lemma_skipped(tokens: Seq<TokenView>, top: int)
    requires
        0 <= top <= tokens.len(),
    ensures
        top <= skipped(tokens, top) <= tokens.len(),
        skipped(tokens, top) < tokens.len() ==> !is_blank(tokens[skipped(tokens, top)]),
        skipped(tokens, skipped(tokens, top)) == skipped(tokens, top),
    decreases tokens.len() - top,
{
    if top < tokens.len() && is_blank(tokens[top]) {
        lemma_skipped(tokens, top + 1);
    }
}

/// The failure at the current token with `message`.
pub open spec fn failure_at(tokens: Seq<TokenView>, top: int, message: Seq<char>) -> Failure {
    Failure { message, position: Some(current_at(tokens, top).position) }
}

/// The failure that the text `wanted` is not what the current token holds.
pub open spec fn unexpected(tokens: Seq<TokenView>, top: int, wanted: Seq<char>) -> Failure {
    failure_at(tokens, top, expected_message(wanted, current_at(tokens, top).content))
}

/// The failure that an expression is missing where the tokens end.
pub open spec fn missing_expression(tokens: Seq<TokenView>, top: int) -> Failure {
    failure_at(tokens, top, "expected expression, found end of input"@)
}

/// The failure that a line ends behind `=`.
pub open spec fn missing_value(tokens: Seq<TokenView>, top: int) -> Failure {
    failure_at(tokens, top, "expected expression, found: \"\\n\""@)
}

/// The failure that the current token is an operator that the language
/// does not have.
pub open spec fn unknown_operator(tokens: Seq<TokenView>, top: int) -> Failure {
    failure_at(tokens, top, "unexpected operator: "@ + current_at(tokens, top).content)
}

/// Whether a call may start with a token of this kind and text as its
/// first argument: a literal, a name or an opening parenthesis.
pub open spec fn starts_argument(t: TokenView) -> bool {
    t.token_type.is_literal() || t.token_type == TokenType::Identifier || (t.token_type
        == TokenType::Symbol && t.content == "("@)
}

/// One unit of an expression at `top`: a literal, a name, a group in
/// parentheses or a function literal. A name or a group may be indexed, or
/// called by writing arguments behind it. Past the last token it is the
/// end-of-input mark.
pub open spec fn term(tokens: Seq<TokenView>, top: int) -> Parsed<ExpressionView>
    decreases tokens.len() - top, 1nat,
{
    if top < 0 || top >= tokens.len() {
        Ok((ExpressionView::EOF, top))
    } else {
        let t = tokens[top];
        match t.token_type {
            TokenType::IntLiteral | TokenType::FloatLiteral => Ok(
                (ExpressionView::Number(t.content), top + 1),
            ),
            TokenType::BoolLiteral => Ok((ExpressionView::Bool(t.content == "true"@), top + 1)),
            TokenType::StringLiteral => Ok((ExpressionView::Str(t.content), top + 1)),
            TokenType::CharLiteral => if t.content.len() > 0 {
                Ok((ExpressionView::Char(t.content[0]), top + 1))
            } else {
                Err(failure_at(tokens, top, "unexpected: "@ + t.content))
            },
            TokenType::Identifier => {
                let name = ExpressionView::Identifier(t.content, t.position);
                if top + 1 >= tokens.len() {
                    Ok((name, top + 1))
                } else if tokens[top + 1].content == ","@ || tokens[top + 1].content == ")"@ {
                    Ok((name, top + 1))
                } else if tokens[top + 1].content == "["@ {
                    index(tokens, top + 1, name)
                } else {
                    try_call(tokens, top + 1, name)
                }
            },
            TokenType::Symbol => if t.content == "("@ {
                match expression(tokens, top + 1) {
                    Err(f) => Err(f),
                    Ok((inner, after)) => if inner is EOF || !(top < after <= tokens.len()) {
                        Err(missing_expression(tokens, after))
                    } else {
                        proof {
                            lemma_skipped(tokens, after);
                        }
                        let close = skipped(tokens, after);
                        if current_at(tokens, close).content != ")"@ {
                            Err(unexpected(tokens, close, ")"@))
                        } else {
                            let behind = stepped(tokens, close);
                            if behind >= tokens.len() {
                                Ok((inner, behind))
                            } else if tokens[behind].content == "["@ {
                                index(tokens, behind, inner)
                            } else {
                                try_call(tokens, behind, inner)
                            }
                        }
                    },
                }
            } else if t.content == "{"@ {
                function(tokens, top)
            } else {
                Err(failure_at(tokens, top, "unexpected symbol: "@ + t.content))
            },
            _ => Err(failure_at(tokens, top, "unexpected: "@ + t.content)),
        }
    }
}

/// A call of `callee` where the token at `top` may start an argument, else
/// `callee` as it is.
pub open spec fn try_call(tokens: Seq<TokenView>, top: int, callee: ExpressionView) -> Parsed<
    ExpressionView,
>
    decreases tokens.len() - top, 4nat,
{
    if 0 <= top < tokens.len() && starts_argument(tokens[top]) {
        match arguments(tokens, top, Seq::empty()) {
            Err(f) => Err(f),
            Ok((args, after)) => Ok(
                (
                    ExpressionView::Call {
                        callee: Box::new(callee),
                        args,
                        position: current_at(tokens, after).position,
                    },
                    after,
                ),
            ),
        }
    } else {
        Ok((callee, top))
    }
}

/// The arguments of a call from `top` on, behind `args`: expressions with a
/// comma between two, up to the end of the line, to the end of the tokens,
/// or to a token that is no comma.
pub open spec fn arguments(tokens: Seq<TokenView>, top: int, args: Seq<ExpressionView>) -> Parsed<
    Seq<ExpressionView>,
>
    decreases tokens.len() - top, 3nat,
{
    if top < 0 || top >= tokens.len() {
        Ok((args, top))
    } else if tokens[top].content == "\n"@ {
        Ok((args, top))
    } else if tokens[top].content == ","@ || args.len() == 0 {
        let from = if tokens[top].content == ","@ {
            top + 1
        } else {
            top
        };
        match expression(tokens, from) {
            Err(f) => Err(f),
            Ok((argument, after)) => if argument is EOF || !(top < after <= tokens.len()) {
                Ok((args, after))
            } else {
                arguments(tokens, after, args.push(argument))
            },
        }
    } else {
        Ok((args, top))
    }
}

/// An index into `id`, whose opening bracket is the token at `top`: an
/// expression and the closing bracket.
pub open spec fn index(tokens: Seq<TokenView>, top: int, id: ExpressionView) -> Parsed<
    ExpressionView,
>
    decreases tokens.len() - top, 0nat,
{
    if top < 0 || top >= tokens.len() {
        Err(missing_expression(tokens, top))
    } else {
        match expression(tokens, top + 1) {
            Err(f) => Err(f),
            Ok((inner, after)) => if inner is EOF {
                Err(missing_expression(tokens, after))
            } else if current_at(tokens, after).content != "]"@ {
                Err(unexpected(tokens, after, "]"@))
            } else {
                let behind = stepped(tokens, after);
                Ok(
                    (
                        ExpressionView::Index {
                            id: Box::new(id),
                            index: Box::new(inner),
                            position: current_at(tokens, behind).position,
                        },
                        behind,
                    ),
                )
            },
        }
    }
}

/// An expression at `top`: a term and, where an operator follows it, the
/// operation that the operators and terms behind it make.
pub open spec fn expression(tokens: Seq<TokenView>, top: int) -> Parsed<ExpressionView>
    decreases tokens.len() - top, 2nat,
{
    if top < 0 || top > tokens.len() {
        Ok((ExpressionView::EOF, top))
    } else {
        proof {
            lemma_skipped(tokens, top);
        }
        match term(tokens, skipped(tokens, top)) {
            Err(f) => Err(f),
            Ok((first, after)) => if first is EOF || !(top < after < tokens.len()) {
                Ok((first, after))
            } else {
                proof {
                    lemma_skipped(tokens, after);
                }
                let next = skipped(tokens, after);
                if next < tokens.len() && tokens[next].token_type == TokenType::Operator {
                    operation(tokens, next, first)
                } else {
                    Ok((first, next))
                }
            },
        }
    }
}

/// The operation that starts with `first` and the operator at `top`.
pub open spec fn operation(tokens: Seq<TokenView>, top: int, first: ExpressionView) -> Parsed<
    ExpressionView,
>
    decreases tokens.len() - top, 0nat,
{
    if top < 0 || top >= tokens.len() {
        Ok((first, top))
    } else {
        match Operand::parse(tokens[top].content) {
            None => Err(unknown_operator(tokens, top)),
            Some(pending) => {
                let from = if top + 1 < tokens.len() && tokens[top + 1].content == "\n"@ {
                    top + 2
                } else {
                    top + 1
                };
                match term(tokens, from) {
                    Err(f) => Err(f),
                    Ok((second, after)) => if second is EOF || !(top < after <= tokens.len()) {
                        Err(missing_expression(tokens, after))
                    } else {
                        operands(tokens, after, first, pending, second)
                    },
                }
            },
        }
    }
}

/// The rest of an operation, where `left`, the operator `pending` and
/// `right` were read and the cursor is at `top`.
///
/// An operator that follows and binds no tighter than `pending` closes
/// `left pending right`, which becomes the left side of the new operator.
/// One that binds tighter takes `right` as its own left side, and what the
/// two make becomes the right side of `pending`. Without an operator the
/// operation is `left pending right`.
pub open spec fn operands(
    tokens: Seq<TokenView>,
    top: int,
    left: ExpressionView,
    pending: (Operand, u8),
    right: ExpressionView,
) -> Parsed<ExpressionView>
    decreases tokens.len() - top, 0nat,
{
    if 0 <= top < tokens.len() && tokens[top].token_type == TokenType::Operator {
        match Operand::parse(tokens[top].content) {
            None => Err(unknown_operator(tokens, top)),
            Some(next) => match term(tokens, top + 1) {
                Err(f) => Err(f),
                Ok((operand, after)) => if operand is EOF || !(top < after <= tokens.len()) {
                    Err(missing_expression(tokens, after))
                } else if next.1 >= pending.1 {
                    operands(
                        tokens,
                        after,
                        ExpressionView::Operation {
                            left: Box::new(left),
                            op: pending.0,
                            right: Box::new(right),
                            position: current_at(tokens, top + 1).position,
                        },
                        next,
                        operand,
                    )
                } else {
                    operands(
                        tokens,
                        after,
                        left,
                        pending,
                        ExpressionView::Operation {
                            left: Box::new(right),
                            op: next.0,
                            right: Box::new(operand),
                            position: current_at(tokens, after).position,
                        },
                    )
                },
            },
        }
    } else {
        Ok(
            (
                ExpressionView::Operation {
                    left: Box::new(left),
                    op: pending.0,
                    right: Box::new(right),
                    position: current_at(tokens, top).position,
                },
                top,
            ),
        )
    }
}

/// An operator that binds no tighter than the one before it takes all that
/// stands before it as its left side: operators of one precedence group to
/// the left.
pub proof fn lemma_looser_operator_takes_the_left(
    tokens: Seq<TokenView>,
    top: int,
    left: ExpressionView,
    pending: (Operand, u8),
    right: ExpressionView,
    next: (Operand, u8),
    operand: ExpressionView,
    after: int,
)
    requires
        0 <= top < after <= tokens.len(),
        tokens[top].token_type == TokenType::Operator,
        Operand::parse(tokens[top].content) == Some(next),
        next.1 >= pending.1,
        term(tokens, top + 1) == Ok::<(ExpressionView, int), Failure>((operand, after)),
        !(operand is EOF),
        !(after < tokens.len() && tokens[after].token_type == TokenType::Operator),
    ensures
        operands(tokens, top, left, pending, right) == Ok::<(ExpressionView, int), Failure>(
            (
                ExpressionView::Operation {
                    left: Box::new(
                        ExpressionView::Operation {
                            left: Box::new(left),
                            op: pending.0,
                            right: Box::new(right),
                            position: current_at(tokens, top + 1).position,
                        },
                    ),
                    op: next.0,
                    right: Box::new(operand),
                    position: current_at(tokens, after).position,
                },
                after,
            ),
        ),
{
    let closed = ExpressionView::Operation {
        left: Box::new(left),
        op: pending.0,
        right: Box::new(right),
        position: current_at(tokens, top + 1).position,
    };
    assert(operands(tokens, top, left, pending, right) == operands(
        tokens,
        after,
        closed,
        next,
        operand,
    ));
}

/// An operator that binds tighter than the one before it takes only the
/// operand before it as its left side.
pub proof fn lemma_tighter_operator_takes_the_operand(
    tokens: Seq<TokenView>,
    top: int,
    left: ExpressionView,
    pending: (Operand, u8),
    right: ExpressionView,
    next: (Operand, u8),
    operand: ExpressionView,
    after: int,
)
    requires
        0 <= top < after <= tokens.len(),
        tokens[top].token_type == TokenType::Operator,
        Operand::parse(tokens[top].content) == Some(next),
        next.1 < pending.1,
        term(tokens, top + 1) == Ok::<(ExpressionView, int), Failure>((operand, after)),
        !(operand is EOF),
        !(after < tokens.len() && tokens[after].token_type == TokenType::Operator),
    ensures
        operands(tokens, top, left, pending, right) == Ok::<(ExpressionView, int), Failure>(
            (
                ExpressionView::Operation {
                    left: Box::new(left),
                    op: pending.0,
                    right: Box::new(
                        ExpressionView::Operation {
                            left: Box::new(right),
                            op: next.0,
                            right: Box::new(operand),
                            position: current_at(tokens, after).position,
                        },
                    ),
                    position: current_at(tokens, after).position,
                },
                after,
            ),
        ),
{
    let bound = ExpressionView::Operation {
        left: Box::new(right),
        op: next.0,
        right: Box::new(operand),
        position: current_at(tokens, after).position,
    };
    assert(operands(tokens, top, left, pending, right) == operands(
        tokens,
        after,
        left,
        pending,
        bound,
    ));
}

/// A function literal, whose opening brace is the token at `top`: arms and
/// statements up to the closing brace.
pub open spec fn function(tokens: Seq<TokenView>, top: int) -> Parsed<ExpressionView>
    decreases tokens.len() - top, 0nat,
{
    if top < 0 || top >= tokens.len() {
        Err(missing_expression(tokens, top))
    } else {
        proof {
            lemma_skipped(tokens, top + 1);
        }
        match function_items(tokens, skipped(tokens, top + 1), Seq::empty()) {
            Err(f) => Err(f),
            Ok((items, after)) => if current_at(tokens, after).content != "}"@ {
                Err(unexpected(tokens, after, "}"@))
            } else {
                let behind = stepped(tokens, after);
                Ok(
                    (
                        ExpressionView::Function {
                            arms: Box::new(ExpressionView::Block(items)),
                            position: current_at(tokens, behind).position,
                        },
                        behind,
                    ),
                )
            },
        }
    }
}

/// The arms and statements of a function literal from `top` on, behind
/// `items`, up to the closing brace or the end of the tokens.
pub open spec fn function_items(tokens: Seq<TokenView>, top: int, items: Seq<StatementView>)
    -> Parsed<Seq<StatementView>>
    decreases tokens.len() - top, 5nat,
{
    if top < 0 || top >= tokens.len() {
        Ok((items, top))
    } else if tokens[top].content == "}"@ {
        Ok((items, top))
    } else if tokens[top].content == "|"@ {
        match arm(tokens, top) {
            Err(f) => Err(f),
            Ok((found, after)) => if !(top < after <= tokens.len()) {
                Ok((items, after))
            } else {
                function_items(
                    tokens,
                    after,
                    items.push(StatementView::Expression(Box::new(found))),
                )
            },
        }
    } else {
        proof {
            lemma_skipped(tokens, top);
        }
        let from = skipped(tokens, top);
        if from >= tokens.len() || tokens[from].content == "}"@ {
            Ok((items, from))
        } else {
            match statement(tokens, from) {
                Err(f) => Err(f),
                Ok((found, after)) => if !(top < after <= tokens.len()) {
                    Ok((items, after))
                } else {
                    function_items(tokens, after, items.push(found))
                },
            }
        }
    }
}

/// An arm, whose opening bar is the token at `top`: parameters with a comma
/// between two, the closing bar, and one statement as the body.
pub open spec fn arm(tokens: Seq<TokenView>, top: int) -> Parsed<ExpressionView>
    decreases tokens.len() - top, 4nat,
{
    if top < 0 || top >= tokens.len() {
        Err(missing_expression(tokens, top))
    } else if tokens[top].content != "|"@ {
        Err(unexpected(tokens, top, "|"@))
    } else {
        match parameters(tokens, top + 1, Seq::empty()) {
            Err(f) => Err(f),
            Ok((params, after)) => if !(top < after <= tokens.len()) {
                Err(missing_expression(tokens, after))
            } else if current_at(tokens, after).content != "|"@ {
                Err(unexpected(tokens, after, "|"@))
            } else {
                match statement(tokens, stepped(tokens, after)) {
                    Err(f) => Err(f),
                    Ok((body, behind)) => if (body matches StatementView::Expression(e) && *e
                        is EOF) || !(after <= behind <= tokens.len()) {
                        Err(missing_expression(tokens, behind))
                    } else {
                        proof {
                            lemma_skipped(tokens, behind);
                        }
                        let end = skipped(tokens, behind);
                        Ok(
                            (
                                ExpressionView::Arm {
                                    params,
                                    body: Box::new(body),
                                    position: current_at(tokens, end).position,
                                },
                                end,
                            ),
                        )
                    },
                }
            },
        }
    }
}

/// The parameters of an arm from `top` on, behind `params`, up to the
/// closing bar or the end of the tokens.
pub open spec fn parameters(tokens: Seq<TokenView>, top: int, params: Seq<ExpressionView>)
    -> Parsed<Seq<ExpressionView>>
    decreases tokens.len() - top, 3nat,
{
    if top < 0 || top >= tokens.len() {
        Ok((params, top))
    } else if tokens[top].content == "|"@ {
        Ok((params, top))
    } else {
        match expression(tokens, top) {
            Err(f) => Err(f),
            Ok((param, after)) => if param is EOF || !(top < after <= tokens.len()) {
                Err(missing_expression(tokens, after))
            } else if current_at(tokens, after).content == "|"@ {
                parameters(tokens, after, params.push(param))
            } else if current_at(tokens, after).content != ","@ {
                Err(unexpected(tokens, after, ","@))
            } else {
                parameters(tokens, stepped(tokens, after), params.push(param))
            },
        }
    }
}

/// A statement at `top`: a name and `=` start an assignment, anything else
/// is an expression. Past the last token it is the end-of-input mark.
pub open spec fn statement(tokens: Seq<TokenView>, top: int) -> Parsed<StatementView>
    decreases tokens.len() - top, 3nat,
{
    if top < 0 || top > tokens.len() {
        Ok((StatementView::Expression(Box::new(ExpressionView::EOF)), top))
    } else {
        proof {
            lemma_skipped(tokens, top);
        }
        let from = skipped(tokens, top);
        if from >= tokens.len() {
            Ok((StatementView::Expression(Box::new(ExpressionView::EOF)), from))
        } else if tokens[from].token_type == TokenType::Identifier && current_at(
            tokens,
            from + 1,
        ).content == "="@ {
            assignment(
                tokens,
                from + 1,
                ExpressionView::Identifier(tokens[from].content, tokens[from].position),
            )
        } else {
            match expression(tokens, from) {
                Err(f) => Err(f),
                Ok((found, after)) => Ok((StatementView::Expression(Box::new(found)), after)),
            }
        }
    }
}

/// An assignment to `left`, whose `=` is the token at `top`: an expression
/// on the same line.
pub open spec fn assignment(tokens: Seq<TokenView>, top: int, left: ExpressionView) -> Parsed<
    StatementView,
>
    decreases tokens.len() - top, 3nat,
{
    if top < 0 || top > tokens.len() {
        Err(missing_expression(tokens, top))
    } else {
        let from = stepped(tokens, top);
        if current_at(tokens, from).content == "\n"@ {
            Err(missing_value(tokens, from))
        } else {
            match expression(tokens, from) {
                Err(f) => Err(f),
                Ok((right, after)) => if right is EOF {
                    Err(missing_expression(tokens, after))
                } else {
                    Ok(
                        (
                            StatementView::Assignment {
                                left: Box::new(left),
                                right: Box::new(right),
                                position: current_at(tokens, after).position,
                            },
                            after,
                        ),
                    )
                },
            }
        }
    }
}

/// The statements of a program from `top` on, behind `statements`.
pub open spec fn program(tokens: Seq<TokenView>, top: int, statements: Seq<StatementView>)
    -> Result<Seq<StatementView>, Failure>
    decreases tokens.len() - top, 6nat,
{
    if top < 0 || top >= tokens.len() {
        Ok(statements)
    } else {
        proof {
            lemma_skipped(tokens, top);
        }
        let from = skipped(tokens, top);
        if from >= tokens.len() {
            Ok(statements)
        } else {
            match statement(tokens, from) {
                Err(f) => Err(f),
                Ok((found, after)) => if !(top < after <= tokens.len()) {
                    Ok(statements.push(found))
                } else {
                    program(tokens, after, statements.push(found))
                },
            }
        }
    }
}

} // verus!
