//! Every position that the front end hands out is the position of a
//! character of the source text: the lexer gives each token the position of
//! its first character, the parser gives each node and each failure the
//! position of a token, and the checker fails at the position of a name.

use vstd::prelude::*;
use crate::ast::{ExpressionView, Operand, StatementView};
use crate::checker::{
    arm_scope, checked_arguments, checked_expression, checked_statement, checked_statements,
    declared_in,
};
use crate::grammar::{
    arguments, arm, assignment, expression, function, function_items, index, lemma_skipped,
    operands, operation, parameters, program, skipped, statement, term, try_call, Failure,
};
use crate::lexer::{first_recognised, lexed, next_step, Step};
use crate::matcher::{AnyMatcher, Recognised};
use crate::symtab::Level;
use crate::text::CharClass;
use crate::token::{TokenPosition, TokenType, TokenView};
use crate::tokenizer::position_at;
use crate::traveler::{current_at, stepped};

verus! {

/// Whether `p` is the position of a character of the text.
pub open spec fn is_text_position(items: Seq<char>, p: TokenPosition) -> bool {
    exists|k: int| 0 <= k < items.len() && p == #[trigger] position_at(items, k)
}

/// Whether `p` is the position of one of the tokens.
pub open spec fn is_token_position(tokens: Seq<TokenView>, p: TokenPosition) -> bool {
    exists|k: int| 0 <= k < tokens.len() && p == (#[trigger] tokens[k]).position
}

/// Whether every one of the tokens has the position of a character of the
/// text.
pub open spec fn tokens_in_text(items: Seq<char>, tokens: Seq<TokenView>) -> bool {
    forall|i: int|
        0 <= i < tokens.len() ==> is_text_position(items, (#[trigger] tokens[i]).position)
}

/// The next token, and the failure to read one, stand at a character of
/// the text.
pub proof fn lemma_next_step_in_text(
    matchers: Seq<AnyMatcher>,
    items: Seq<char>,
    classes: Seq<CharClass>,
    at: int,
)
    requires
        0 <= at,
    ensures
        match next_step(matchers, items, classes, at) {
            Step::Stop => true,
            Step::Fail { message, position } => is_text_position(items, position),
            Step::Take { token, end } => is_text_position(items, token.position),
        },
    decreases items.len() - at,
{
    if at < items.len() {
        assert(position_at(items, at) == position_at(items, at));
        match first_recognised(matchers, items, classes, at, 0) {
            Recognised::Found { token_type, content, end } => {
                if token_type == TokenType::Whitespace && at < end <= items.len() {
                    lemma_next_step_in_text(matchers, items, classes, end);
                }
            },
            _ => {},
        }
    }
}

/// Every token that the lexer gives, and the failure to read one, stand at
/// a character of the text.
pub proof fn lemma_lexed_in_text(
    matchers: Seq<AnyMatcher>,
    items: Seq<char>,
    classes: Seq<CharClass>,
    at: int,
    tokens: Seq<TokenView>,
)
    requires
        0 <= at,
        tokens_in_text(items, tokens),
    ensures
        match lexed(matchers, items, classes, at, tokens) {
            Ok(all) => tokens_in_text(items, all),
            Err((message, position)) => is_text_position(items, position),
        },
    decreases items.len() - at,
{
    lemma_next_step_in_text(matchers, items, classes, at);
    match next_step(matchers, items, classes, at) {
        Step::Take { token, end } => {
            let longer = tokens.push(token);
            assert forall|i: int| 0 <= i < longer.len() implies is_text_position(
                items,
                (#[trigger] longer[i]).position,
            ) by {
                if i < tokens.len() {
                    assert(longer[i] == tokens[i]);
                }
            }
            if at < end <= items.len() {
                lemma_lexed_in_text(matchers, items, classes, end, longer);
            }
        },
        _ => {},
    }
}

/// The position of a token is the position of a character of the text
/// where that of every token is.
pub proof fn lemma_token_position_in_text(
    items: Seq<char>,
    tokens: Seq<TokenView>,
    p: TokenPosition,
)
    requires
        tokens_in_text(items, tokens),
        is_token_position(tokens, p),
    ensures
        is_text_position(items, p),
{
    let k = choose|k: int| 0 <= k < tokens.len() && p == (#[trigger] tokens[k]).position;
    assert(is_text_position(items, tokens[k].position));
}

/// The current token is one of the tokens, also where the cursor is past
/// the end.
pub proof fn lemma_current_is_a_token(tokens: Seq<TokenView>, top: int)
    requires
        0 <= top,
        tokens.len() > 0,
    ensures
        is_token_position(tokens, current_at(tokens, top).position),
{
    if top >= tokens.len() {
        assert(tokens[tokens.len() - 1].position == current_at(tokens, top).position);
    } else {
        assert(tokens[top].position == current_at(tokens, top).position);
    }
}

/// Whether every position within an expression is the position of one of
/// the tokens.
pub open spec fn placed_expression(e: ExpressionView, tokens: Seq<TokenView>) -> bool
    decreases e,
{
    match e {
        ExpressionView::Identifier(name, position) => is_token_position(tokens, position),
        ExpressionView::Block(statements) => forall|i: int|
            0 <= i < statements.len() ==> placed_statement(#[trigger] statements[i], tokens),
        ExpressionView::Operation { left, op, right, position } => is_token_position(
            tokens,
            position,
        ) && placed_expression(*left, tokens) && placed_expression(*right, tokens),
        ExpressionView::Call { callee, args, position } => is_token_position(tokens, position)
            && placed_expression(*callee, tokens) && forall|i: int|
            0 <= i < args.len() ==> placed_expression(#[trigger] args[i], tokens),
        ExpressionView::Index { id, index, position } => is_token_position(tokens, position)
            && placed_expression(*id, tokens) && placed_expression(*index, tokens),
        ExpressionView::Function { arms, position } => is_token_position(tokens, position)
            && placed_expression(*arms, tokens),
        ExpressionView::Arm { params, body, position } => is_token_position(tokens, position)
            && placed_statement(*body, tokens) && forall|i: int|
            0 <= i < params.len() ==> placed_expression(#[trigger] params[i], tokens),
        _ => true,
    }
}

/// Whether every position within a statement is the position of one of the
/// tokens.
pub open spec fn placed_statement(s: StatementView, tokens: Seq<TokenView>) -> bool
    decreases s,
{
    match s {
        StatementView::Expression(e) => placed_expression(*e, tokens),
        StatementView::Assignment { left, right, position } => is_token_position(tokens, position)
            && placed_expression(*left, tokens) && placed_expression(*right, tokens),
    }
}

/// Whether every position within `es` is the position of one of the tokens.
pub open spec fn placed_expressions(es: Seq<ExpressionView>, tokens: Seq<TokenView>) -> bool {
    forall|i: int| 0 <= i < es.len() ==> placed_expression(#[trigger] es[i], tokens)
}

/// Whether every position within `ss` is the position of one of the tokens.
pub open spec fn placed_statements(ss: Seq<StatementView>, tokens: Seq<TokenView>) -> bool {
    forall|i: int| 0 <= i < ss.len() ==> placed_statement(#[trigger] ss[i], tokens)
}

/// Whether a failure stands at one of the tokens.
pub open spec fn placed_failure(f: Failure, tokens: Seq<TokenView>) -> bool {
    f.position matches Some(p) && is_token_position(tokens, p)
}

/// Whether what was parsed from `from` on as an expression, tree or
/// failure, stands at the tokens, with the cursor not before `from`.
pub open spec fn placed_parse(
    r: Result<(ExpressionView, int), Failure>,
    tokens: Seq<TokenView>,
    from: int,
) -> bool {
    match r {
        Ok((e, after)) => placed_expression(e, tokens) && from <= after,
        Err(f) => placed_failure(f, tokens),
    }
}

/// Whether what was parsed from `from` on as a statement, tree or failure,
/// stands at the tokens, with the cursor not before `from`.
pub open spec fn placed_statement_parse(
    r: Result<(StatementView, int), Failure>,
    tokens: Seq<TokenView>,
    from: int,
) -> bool {
    match r {
        Ok((s, after)) => placed_statement(s, tokens) && from <= after,
        Err(f) => placed_failure(f, tokens),
    }
}

/// Whether what was parsed from `from` on as a list of expressions stands
/// at the tokens, with the cursor not before `from`.
pub open spec fn placed_list_parse(
    r: Result<(Seq<ExpressionView>, int), Failure>,
    tokens: Seq<TokenView>,
    from: int,
) -> bool {
    match r {
        Ok((es, after)) => placed_expressions(es, tokens) && from <= after,
        Err(f) => placed_failure(f, tokens),
    }
}

/// Whether what was parsed from `from` on as a list of statements stands at
/// the tokens, with the cursor not before `from`.
pub open spec fn placed_items_parse(
    r: Result<(Seq<StatementView>, int), Failure>,
    tokens: Seq<TokenView>,
    from: int,
) -> bool {
    match r {
        Ok((ss, after)) => placed_statements(ss, tokens) && from <= after,
        Err(f) => placed_failure(f, tokens),
    }
}

/// Every cursor stands at a token.
proof fn lemma_cursors_at_tokens(tokens: Seq<TokenView>)
    requires
        tokens.len() > 0,
    ensures
        forall|k: int|
            0 <= k ==> is_token_position(tokens, (#[trigger] current_at(tokens, k)).position),
{
    assert forall|k: int| 0 <= k implies is_token_position(
        tokens,
        (#[trigger] current_at(tokens, k)).position,
    ) by {
        lemma_current_is_a_token(tokens, k);
    }
}

/// A term, and the failure to parse one, stand at the tokens.
pub proof fn lemma_term_placed(tokens: Seq<TokenView>, top: int)
    requires
        0 <= top,
        tokens.len() > 0,
    ensures
        placed_parse(term(tokens, top), tokens, top),
    decreases tokens.len() - top, 1nat,
{
    lemma_cursors_at_tokens(tokens);
    if top < tokens.len() {
        let t = tokens[top];
        match t.token_type {
            TokenType::Identifier => {
                let name = ExpressionView::Identifier(t.content, t.position);
                if top + 1 < tokens.len() {
                    lemma_index_placed(tokens, top + 1, name);
                    lemma_try_call_placed(tokens, top + 1, name);
                }
            },
            TokenType::Symbol => {
                if t.content == "("@ {
                    lemma_expression_placed(tokens, top + 1);
                    match expression(tokens, top + 1) {
                        Ok((inner, after)) => {
                            if !(inner is EOF) && top < after <= tokens.len() {
                                lemma_skipped(tokens, after);
                                let close = skipped(tokens, after);
                                let behind = stepped(tokens, close);
                                if behind < tokens.len() {
                                    lemma_index_placed(tokens, behind, inner);
                                    lemma_try_call_placed(tokens, behind, inner);
                                }
                            }
                        },
                        Err(_) => {},
                    }
                } else if t.content == "{"@ {
                    lemma_function_placed(tokens, top);
                }
            },
            _ => {},
        }
    }
}

/// A call, and the failure to parse one, stand at the tokens.
pub proof fn lemma_try_call_placed(tokens: Seq<TokenView>, top: int, callee: ExpressionView)
    requires
        0 <= top,
        tokens.len() > 0,
        placed_expression(callee, tokens),
    ensures
        placed_parse(try_call(tokens, top, callee), tokens, top),
    decreases tokens.len() - top, 4nat,
{
    lemma_cursors_at_tokens(tokens);
    if top < tokens.len() {
        lemma_arguments_placed(tokens, top, Seq::empty());
    }
}

/// The arguments of a call, and the failure to parse them, stand at the
/// tokens.
pub proof fn lemma_arguments_placed(tokens: Seq<TokenView>, top: int, args: Seq<ExpressionView>)
    requires
        0 <= top,
        tokens.len() > 0,
        placed_expressions(args, tokens),
    ensures
        placed_list_parse(arguments(tokens, top, args), tokens, top),
    decreases tokens.len() - top, 3nat,
{
    lemma_cursors_at_tokens(tokens);
    if top < tokens.len() && tokens[top].content != "\n"@ && (tokens[top].content == ","@
        || args.len() == 0) {
        let from = if tokens[top].content == ","@ {
            top + 1
        } else {
            top
        };
        lemma_expression_placed(tokens, from);
        match expression(tokens, from) {
            Ok((argument, after)) => {
                if !(argument is EOF) && top < after <= tokens.len() {
                    let longer = args.push(argument);
                    assert forall|i: int| 0 <= i < longer.len() implies placed_expression(
                        #[trigger] longer[i],
                        tokens,
                    ) by {
                        if i < args.len() {
                            assert(longer[i] == args[i]);
                        }
                    }
                    lemma_arguments_placed(tokens, after, longer);
                }
            },
            Err(_) => {},
        }
    }
}

/// An index, and the failure to parse one, stand at the tokens.
pub proof fn lemma_index_placed(tokens: Seq<TokenView>, top: int, id: ExpressionView)
    requires
        0 <= top,
        tokens.len() > 0,
        placed_expression(id, tokens),
    ensures
        placed_parse(index(tokens, top, id), tokens, top),
    decreases tokens.len() - top, 0nat,
{
    lemma_cursors_at_tokens(tokens);
    if top < tokens.len() {
        lemma_expression_placed(tokens, top + 1);
    }
}

/// An expression, and the failure to parse one, stand at the tokens.
pub proof fn lemma_expression_placed(tokens: Seq<TokenView>, top: int)
    requires
        0 <= top,
        tokens.len() > 0,
    ensures
        placed_parse(expression(tokens, top), tokens, top),
    decreases tokens.len() - top, 2nat,
{
    lemma_cursors_at_tokens(tokens);
    if top <= tokens.len() {
        lemma_skipped(tokens, top);
        lemma_term_placed(tokens, skipped(tokens, top));
        match term(tokens, skipped(tokens, top)) {
            Ok((first, after)) => {
                if !(first is EOF) && top < after < tokens.len() {
                    lemma_skipped(tokens, after);
                    let next = skipped(tokens, after);
                    if next < tokens.len() {
                        lemma_operation_placed(tokens, next, first);
                    }
                }
            },
            Err(_) => {},
        }
    }
}

/// An operation, and the failure to parse one, stand at the tokens.
pub proof fn lemma_operation_placed(tokens: Seq<TokenView>, top: int, first: ExpressionView)
    requires
        0 <= top,
        tokens.len() > 0,
        placed_expression(first, tokens),
    ensures
        placed_parse(operation(tokens, top, first), tokens, top),
    decreases tokens.len() - top, 0nat,
{
    lemma_cursors_at_tokens(tokens);
    if top < tokens.len() {
        match Operand::parse(tokens[top].content) {
            Some(pending) => {
                let from = if top + 1 < tokens.len() && tokens[top + 1].content == "\n"@ {
                    top + 2
                } else {
                    top + 1
                };
                lemma_term_placed(tokens, from);
                match term(tokens, from) {
                    Ok((second, after)) => {
                        if !(second is EOF) && top < after <= tokens.len() {
                            lemma_operands_placed(tokens, after, first, pending, second);
                        }
                    },
                    Err(_) => {},
                }
            },
            None => {},
        }
    }
}

/// The rest of an operation, and the failure to parse it, stand at the
/// tokens.
pub proof fn lemma_operands_placed(
    tokens: Seq<TokenView>,
    top: int,
    left: ExpressionView,
    pending: (Operand, u8),
    right: ExpressionView,
)
    requires
        0 <= top,
        tokens.len() > 0,
        placed_expression(left, tokens),
        placed_expression(right, tokens),
    ensures
        placed_parse(operands(tokens, top, left, pending, right), tokens, top),
    decreases tokens.len() - top, 0nat,
{
    lemma_cursors_at_tokens(tokens);
    if top < tokens.len() && tokens[top].token_type == TokenType::Operator {
        match Operand::parse(tokens[top].content) {
            Some(next) => {
                lemma_term_placed(tokens, top + 1);
                match term(tokens, top + 1) {
                    Ok((operand, after)) => {
                        if !(operand is EOF) && top < after <= tokens.len() {
                            if next.1 >= pending.1 {
                                lemma_operands_placed(
                                    tokens,
                                    after,
                                    ExpressionView::Operation {
                                        left: Box::new(left),
                                        op: pending.0,
                                        right: Box::new(right),
                                        position: current_at(tokens, top + 1).position,
                                    },
                                    next,
                                    operand,
                                );
                            } else {
                                lemma_operands_placed(
                                    tokens,
                                    after,
                                    left,
                                    pending,
                                    ExpressionView::Operation {
                                        left: Box::new(right),
                                        op: next.0,
                                        right: Box::new(operand),
                                        position: current_at(tokens, after).position,
                                    },
                                );
                            }
                        }
                    },
                    Err(_) => {},
                }
            },
            None => {},
        }
    }
}

/// A function literal, and the failure to parse one, stand at the tokens.
pub proof fn lemma_function_placed(tokens: Seq<TokenView>, top: int)
    requires
        0 <= top,
        tokens.len() > 0,
    ensures
        placed_parse(function(tokens, top), tokens, top),
    decreases tokens.len() - top, 0nat,
{
    lemma_cursors_at_tokens(tokens);
    if top < tokens.len() {
        lemma_skipped(tokens, top + 1);
        lemma_function_items_placed(tokens, skipped(tokens, top + 1), Seq::empty());
        match function_items(tokens, skipped(tokens, top + 1), Seq::empty()) {
            Ok((items, after)) => {
                assert(placed_statements(items, tokens));
                assert(placed_expression(ExpressionView::Block(items), tokens));
            },
            Err(_) => {},
        }
    }
}

/// The arms and statements of a function literal, and the failure to parse
/// them, stand at the tokens.
pub proof fn lemma_function_items_placed(
    tokens: Seq<TokenView>,
    top: int,
    items: Seq<StatementView>,
)
    requires
        0 <= top,
        tokens.len() > 0,
        placed_statements(items, tokens),
    ensures
        placed_items_parse(function_items(tokens, top, items), tokens, top),
    decreases tokens.len() - top, 5nat,
{
    lemma_cursors_at_tokens(tokens);
    if top < tokens.len() && tokens[top].content != "}"@ {
        if tokens[top].content == "|"@ {
            lemma_arm_placed(tokens, top);
            match arm(tokens, top) {
                Ok((found, after)) => {
                    if top < after <= tokens.len() {
                        let item = StatementView::Expression(Box::new(found));
                        let longer = items.push(item);
                        assert forall|i: int| 0 <= i < longer.len() implies placed_statement(
                            #[trigger] longer[i],
                            tokens,
                        ) by {
                            if i < items.len() {
                                assert(longer[i] == items[i]);
                            }
                        }
                        lemma_function_items_placed(tokens, after, longer);
                    }
                },
                Err(_) => {},
            }
        } else {
            lemma_skipped(tokens, top);
            let from = skipped(tokens, top);
            if from < tokens.len() && tokens[from].content != "}"@ {
                lemma_statement_placed(tokens, from);
                match statement(tokens, from) {
                    Ok((found, after)) => {
                        if top < after <= tokens.len() {
                            let longer = items.push(found);
                            assert forall|i: int| 0 <= i < longer.len() implies placed_statement(
                                #[trigger] longer[i],
                                tokens,
                            ) by {
                                if i < items.len() {
                                    assert(longer[i] == items[i]);
                                }
                            }
                            lemma_function_items_placed(tokens, after, longer);
                        }
                    },
                    Err(_) => {},
                }
            }
        }
    }
}

/// An arm, and the failure to parse one, stand at the tokens.
pub proof fn lemma_arm_placed(tokens: Seq<TokenView>, top: int)
    requires
        0 <= top,
        tokens.len() > 0,
    ensures
        placed_parse(arm(tokens, top), tokens, top),
    decreases tokens.len() - top, 4nat,
{
    lemma_cursors_at_tokens(tokens);
    if top < tokens.len() && tokens[top].content == "|"@ {
        lemma_parameters_placed(tokens, top + 1, Seq::empty());
        match parameters(tokens, top + 1, Seq::empty()) {
            Ok((params, after)) => {
                if top < after <= tokens.len() && current_at(tokens, after).content == "|"@ {
                    lemma_statement_placed(tokens, stepped(tokens, after));
                    match statement(tokens, stepped(tokens, after)) {
                        Ok((body, behind)) => {
                            if after <= behind <= tokens.len() {
                                lemma_skipped(tokens, behind);
                            }
                        },
                        Err(_) => {},
                    }
                }
            },
            Err(_) => {},
        }
    }
}

/// The parameters of an arm, and the failure to parse them, stand at the
/// tokens.
pub proof fn lemma_parameters_placed(
    tokens: Seq<TokenView>,
    top: int,
    params: Seq<ExpressionView>,
)
    requires
        0 <= top,
        tokens.len() > 0,
        placed_expressions(params, tokens),
    ensures
        placed_list_parse(parameters(tokens, top, params), tokens, top),
    decreases tokens.len() - top, 3nat,
{
    lemma_cursors_at_tokens(tokens);
    if top < tokens.len() && tokens[top].content != "|"@ {
        lemma_expression_placed(tokens, top);
        match expression(tokens, top) {
            Ok((param, after)) => {
                if !(param is EOF) && top < after <= tokens.len() {
                    let longer = params.push(param);
                    assert forall|i: int| 0 <= i < longer.len() implies placed_expression(
                        #[trigger] longer[i],
                        tokens,
                    ) by {
                        if i < params.len() {
                            assert(longer[i] == params[i]);
                        }
                    }
                    if current_at(tokens, after).content == "|"@ {
                        lemma_parameters_placed(tokens, after, longer);
                    } else if current_at(tokens, after).content == ","@ {
                        lemma_parameters_placed(tokens, stepped(tokens, after), longer);
                    }
                }
            },
            Err(_) => {},
        }
    }
}

/// A statement, and the failure to parse one, stand at the tokens.
pub proof fn lemma_statement_placed(tokens: Seq<TokenView>, top: int)
    requires
        0 <= top,
        tokens.len() > 0,
    ensures
        placed_statement_parse(statement(tokens, top), tokens, top),
    decreases tokens.len() - top, 3nat,
{
    lemma_cursors_at_tokens(tokens);
    if top <= tokens.len() {
        lemma_skipped(tokens, top);
        let from = skipped(tokens, top);
        if from < tokens.len() {
            if tokens[from].token_type == TokenType::Identifier && current_at(
                tokens,
                from + 1,
            ).content == "="@ {
                lemma_assignment_placed(
                    tokens,
                    from + 1,
                    ExpressionView::Identifier(tokens[from].content, tokens[from].position),
                );
            } else {
                lemma_expression_placed(tokens, from);
            }
        }
    }
}

/// An assignment, and the failure to parse one, stand at the tokens.
pub proof fn lemma_assignment_placed(tokens: Seq<TokenView>, top: int, left: ExpressionView)
    requires
        0 <= top,
        tokens.len() > 0,
        placed_expression(left, tokens),
    ensures
        placed_statement_parse(assignment(tokens, top, left), tokens, top),
    decreases tokens.len() - top, 3nat,
{
    lemma_cursors_at_tokens(tokens);
    if top <= tokens.len() {
        lemma_expression_placed(tokens, stepped(tokens, top));
    }
}

/// The statements of a program, and the failure to parse them, stand at
/// the tokens.
pub proof fn lemma_program_rest_placed(
    tokens: Seq<TokenView>,
    top: int,
    statements: Seq<StatementView>,
)
    requires
        0 <= top,
        placed_statements(statements, tokens),
    ensures
        match program(tokens, top, statements) {
            Ok(all) => placed_statements(all, tokens),
            Err(f) => placed_failure(f, tokens),
        },
    decreases tokens.len() - top, 6nat,
{
    if top < tokens.len() {
        lemma_skipped(tokens, top);
        let from = skipped(tokens, top);
        if from < tokens.len() {
            lemma_statement_placed(tokens, from);
            match statement(tokens, from) {
                Ok((found, after)) => {
                    let longer = statements.push(found);
                    assert forall|i: int| 0 <= i < longer.len() implies placed_statement(
                        #[trigger] longer[i],
                        tokens,
                    ) by {
                        if i < statements.len() {
                            assert(longer[i] == statements[i]);
                        }
                    }
                    if top < after <= tokens.len() {
                        lemma_program_rest_placed(tokens, after, longer);
                    }
                },
                Err(_) => {},
            }
        }
    }
}

/// Every position within a program that was parsed, and the position of the
/// failure to parse it, is the position of one of the tokens.
pub proof fn lemma_program_placed(tokens: Seq<TokenView>)
    ensures
        match program(tokens, 0, Seq::empty()) {
            Ok(all) => placed_statements(all, tokens),
            Err(f) => placed_failure(f, tokens),
        },
{
    lemma_program_rest_placed(tokens, 0, Seq::empty());
}

/// Where checking an expression fails, it fails at a position within the
/// expression.
pub proof fn lemma_checked_expression_placed(
    e: ExpressionView,
    scope: Seq<Level>,
    tokens: Seq<TokenView>,
)
    requires
        placed_expression(e, tokens),
    ensures
        checked_expression(e, scope).failure matches Some(p) ==> is_token_position(tokens, p),
    decreases e, 0nat,
{
    match e {
        ExpressionView::Block(statements) => {
            lemma_checked_statements_placed(statements, statements.len(), scope, tokens);
        },
        ExpressionView::Operation { left, op, right, position } => {
            lemma_checked_expression_placed(*left, scope, tokens);
            lemma_checked_expression_placed(
                *right,
                checked_expression(*left, scope).scope,
                tokens,
            );
        },
        ExpressionView::Call { callee, args, position } => {
            lemma_checked_expression_placed(*callee, scope, tokens);
            lemma_checked_arguments_placed(
                args,
                args.len(),
                checked_expression(*callee, scope).scope,
                tokens,
            );
        },
        ExpressionView::Index { id, index, position } => {
            lemma_checked_expression_placed(*id, scope, tokens);
            lemma_checked_expression_placed(*index, checked_expression(*id, scope).scope, tokens);
        },
        ExpressionView::Function { arms, position } => {
            lemma_checked_expression_placed(*arms, scope, tokens);
        },
        ExpressionView::Arm { params, body, position } => {
            lemma_checked_statement_placed(*body, arm_scope(params, scope), tokens);
        },
        _ => {},
    }
}

/// Where checking a statement fails, it fails at a position within the
/// statement.
pub proof fn lemma_checked_statement_placed(
    s: StatementView,
    scope: Seq<Level>,
    tokens: Seq<TokenView>,
)
    requires
        placed_statement(s, tokens),
    ensures
        checked_statement(s, scope).failure matches Some(p) ==> is_token_position(tokens, p),
    decreases s, 0nat,
{
    match s {
        StatementView::Expression(e) => {
            lemma_checked_expression_placed(*e, scope, tokens);
        },
        StatementView::Assignment { left, right, position } => {
            match *left {
                ExpressionView::Identifier(name, _) => {
                    lemma_checked_expression_placed(*right, declared_in(scope, name), tokens);
                },
                _ => {},
            }
        },
    }
}

/// Where checking statements fails, it fails at a position within them.
pub proof fn lemma_checked_statements_placed(
    statements: Seq<StatementView>,
    n: nat,
    scope: Seq<Level>,
    tokens: Seq<TokenView>,
)
    requires
        n <= statements.len(),
        placed_statements(statements, tokens),
    ensures
        checked_statements(statements, n, scope).failure matches Some(p) ==> is_token_position(
            tokens,
            p,
        ),
    decreases statements, n,
{
    if n > 0 {
        lemma_checked_statements_placed(statements, (n - 1) as nat, scope, tokens);
        lemma_checked_statement_placed(
            statements[n - 1],
            checked_statements(statements, (n - 1) as nat, scope).scope,
            tokens,
        );
    }
}

/// Where checking arguments fails, it fails at a position within them.
pub proof fn lemma_checked_arguments_placed(
    args: Seq<ExpressionView>,
    n: nat,
    scope: Seq<Level>,
    tokens: Seq<TokenView>,
)
    requires
        n <= args.len(),
        placed_expressions(args, tokens),
    ensures
        checked_arguments(args, n, scope).failure matches Some(p) ==> is_token_position(tokens, p),
    decreases args, n,
{
    if n > 0 {
        lemma_checked_arguments_placed(args, (n - 1) as nat, scope, tokens);
        lemma_checked_expression_placed(
            args[n - 1],
            checked_arguments(args, (n - 1) as nat, scope).scope,
            tokens,
        );
    }
}

/// Whatever the front end reports of a text stands at a character of that
/// text: the failure to read a token, the failure to parse the tokens, and
/// the failure of the check of the program that was parsed.
pub proof fn lemma_reports_stand_in_the_text(
    matchers: Seq<AnyMatcher>,
    items: Seq<char>,
    classes: Seq<CharClass>,
    scope: Seq<Level>,
)
    ensures
        match lexed(matchers, items, classes, 0, Seq::empty()) {
            Err((message, position)) => is_text_position(items, position),
            Ok(tokens) => match program(tokens, 0, Seq::empty()) {
                Err(f) => f.position matches Some(p) && is_text_position(items, p),
                Ok(statements) => checked_statements(
                    statements,
                    statements.len(),
                    scope,
                ).failure matches Some(p) ==> is_text_position(items, p),
            },
        },
{
    lemma_lexed_in_text(matchers, items, classes, 0, Seq::empty());
    match lexed(matchers, items, classes, 0, Seq::empty()) {
        Ok(tokens) => {
            lemma_program_placed(tokens);
            match program(tokens, 0, Seq::empty()) {
                Err(f) => {
                    lemma_token_position_in_text(items, tokens, f.position->0);
                },
                Ok(statements) => {
                    lemma_checked_statements_placed(statements, statements.len(), scope, tokens);
                    match checked_statements(statements, statements.len(), scope).failure {
                        Some(p) => {
                            lemma_token_position_in_text(items, tokens, p);
                        },
                        None => {},
                    }
                },
            }
        },
        Err(_) => {},
    }
}

} // verus!
