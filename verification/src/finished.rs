//! The trees that the parser leaves are finished: they hold no end-of-input
//! mark, and every function literal in them stands over a block. What the
//! grammar gives is the bare mark, past the last token, or a finished tree,
//! and the cursor moves forward within the tokens: behind a finished tree it
//! stands further on than before. A finished tree can always be lowered.

use vstd::prelude::*;
use crate::ast::{ExpressionView, Operand, StatementView};
use crate::grammar::{
    arguments, arm, assignment, expression, function, function_items, has_more, index,
    lemma_skipped,
    operands, operation, parameters, program, skipped, statement, term, try_call,
};
use crate::token::{TokenType, TokenView};
use crate::transpiler::{
    lua_arguments_text, lua_body_text, lua_expression_text, lua_guards_text, lua_metamethod_text,
    lua_metamethods_text, lua_result_text, lua_statement_text, lua_statements_text,
};
use crate::traveler::{current_at, stepped};

verus! {

/// Whether an expression holds no end-of-input mark and no function
/// literal without a block.
pub open spec fn finished_expression(e: ExpressionView) -> bool
    decreases e,
{
    match e {
        ExpressionView::EOF => false,
        ExpressionView::Block(statements) => forall|i: int|
            0 <= i < statements.len() ==> finished_statement(#[trigger] statements[i]),
        ExpressionView::Operation { left, op, right, position } => finished_expression(*left)
            && finished_expression(*right),
        ExpressionView::Call { callee, args, position } => finished_expression(*callee) && forall|
            i: int,
        |
            0 <= i < args.len() ==> finished_expression(#[trigger] args[i]),
        ExpressionView::Index { id, index, position } => finished_expression(*id)
            && finished_expression(*index),
        ExpressionView::Function { arms, position } => *arms is Block && finished_expression(
            *arms,
        ),
        ExpressionView::Arm { params, body, position } => finished_statement(*body) && forall|
            i: int,
        |
            0 <= i < params.len() ==> finished_expression(#[trigger] params[i]),
        _ => true,
    }
}

/// Whether a statement holds no end-of-input mark and no function literal
/// without a block.
pub open spec fn finished_statement(s: StatementView) -> bool
    decreases s,
{
    match s {
        StatementView::Expression(e) => finished_expression(*e),
        StatementView::Assignment { left, right, position } => finished_expression(*left)
            && finished_expression(*right),
    }
}

/// Whether every one of `es` is finished.
pub open spec fn finished_expressions(es: Seq<ExpressionView>) -> bool {
    forall|i: int| 0 <= i < es.len() ==> finished_expression(#[trigger] es[i])
}

/// Whether every one of `ss` is finished.
pub open spec fn finished_statements(ss: Seq<StatementView>) -> bool {
    forall|i: int| 0 <= i < ss.len() ==> finished_statement(#[trigger] ss[i])
}

/// A term is the bare mark past the last token, and a finished tree
/// anywhere else.
pub proof fn lemma_term_finished(tokens: Seq<TokenView>, top: int)
    requires
        0 <= top <= tokens.len(),
    ensures
        term(tokens, top) matches Ok((e, after)) ==> (if top < tokens.len() {
            finished_expression(e) && top < after <= tokens.len()
        } else {
            e is EOF && after == top
        }),
    decreases tokens.len() - top, 1nat,
{
    if top < tokens.len() {
        let t = tokens[top];
        match t.token_type {
            TokenType::Identifier => {
                let name = ExpressionView::Identifier(t.content, t.position);
                if top + 1 < tokens.len() {
                    lemma_index_finished(tokens, top + 1, name);
                    lemma_try_call_finished(tokens, top + 1, name);
                }
            },
            TokenType::Symbol => {
                if t.content == "("@ {
                    lemma_expression_finished(tokens, top + 1);
                    match expression(tokens, top + 1) {
                        Ok((inner, after)) => {
                            if !(inner is EOF) && top < after <= tokens.len() {
                                lemma_skipped(tokens, after);
                                let close = skipped(tokens, after);
                                let behind = stepped(tokens, close);
                                if behind < tokens.len() {
                                    lemma_index_finished(tokens, behind, inner);
                                    lemma_try_call_finished(tokens, behind, inner);
                                }
                            }
                        },
                        Err(_) => {},
                    }
                } else if t.content == "{"@ {
                    lemma_function_finished(tokens, top);
                }
            },
            _ => {},
        }
    }
}

/// A call of a finished callee is finished.
pub proof fn lemma_try_call_finished(tokens: Seq<TokenView>, top: int, callee: ExpressionView)
    requires
        0 <= top <= tokens.len(),
        finished_expression(callee),
    ensures
        try_call(tokens, top, callee) matches Ok((e, after)) ==> finished_expression(e) && top
            <= after <= tokens.len(),
    decreases tokens.len() - top, 4nat,
{
    if top < tokens.len() {
        lemma_arguments_finished(tokens, top, Seq::empty());
    }
}

/// The arguments of a call are finished.
pub proof fn lemma_arguments_finished(
    tokens: Seq<TokenView>,
    top: int,
    args: Seq<ExpressionView>,
)
    requires
        0 <= top <= tokens.len(),
        finished_expressions(args),
    ensures
        arguments(tokens, top, args) matches Ok((all, after)) ==> finished_expressions(all) && top
            <= after <= tokens.len(),
    decreases tokens.len() - top, 3nat,
{
    if top < tokens.len() && tokens[top].content != "\n"@ && (tokens[top].content == ","@
        || args.len() == 0) {
        let from = if tokens[top].content == ","@ {
            top + 1
        } else {
            top
        };
        lemma_expression_finished(tokens, from);
        match expression(tokens, from) {
            Ok((argument, after)) => {
                if !(argument is EOF) && top < after <= tokens.len() {
                    let longer = args.push(argument);
                    assert forall|i: int| 0 <= i < longer.len() implies finished_expression(
                        #[trigger] longer[i],
                    ) by {
                        if i < args.len() {
                            assert(longer[i] == args[i]);
                        }
                    }
                    lemma_arguments_finished(tokens, after, longer);
                }
            },
            Err(_) => {},
        }
    }
}

/// An index into a finished expression is finished.
pub proof fn lemma_index_finished(tokens: Seq<TokenView>, top: int, id: ExpressionView)
    requires
        0 <= top < tokens.len(),
        finished_expression(id),
    ensures
        index(tokens, top, id) matches Ok((e, after)) ==> finished_expression(e) && top < after
            <= tokens.len(),
    decreases tokens.len() - top, 0nat,
{
    if top < tokens.len() {
        lemma_expression_finished(tokens, top + 1);
    }
}

/// An expression is the bare mark or a finished tree.
pub proof fn lemma_expression_finished(tokens: Seq<TokenView>, top: int)
    requires
        0 <= top <= tokens.len(),
    ensures
        expression(tokens, top) matches Ok((e, after)) ==> top <= after <= tokens.len() && (e
            is EOF || (finished_expression(e) && top < after)),
        has_more(tokens, top) ==> (expression(tokens, top) matches Ok((e, after))
            ==> finished_expression(e)),
    decreases tokens.len() - top, 2nat,
{
    if top <= tokens.len() {
        lemma_skipped(tokens, top);
        lemma_term_finished(tokens, skipped(tokens, top));
        match term(tokens, skipped(tokens, top)) {
            Ok((first, after)) => {
                if !(first is EOF) && top < after < tokens.len() {
                    lemma_skipped(tokens, after);
                    let next = skipped(tokens, after);
                    if next < tokens.len() {
                        lemma_operation_finished(tokens, next, first);
                    }
                }
            },
            Err(_) => {},
        }
    }
}

/// An operation on a finished first operand is finished.
pub proof fn lemma_operation_finished(tokens: Seq<TokenView>, top: int, first: ExpressionView)
    requires
        0 <= top < tokens.len(),
        finished_expression(first),
    ensures
        operation(tokens, top, first) matches Ok((e, after)) ==> finished_expression(e) && top
            < after <= tokens.len(),
    decreases tokens.len() - top, 0nat,
{
    if top < tokens.len() {
        match Operand::parse(tokens[top].content) {
            Some(pending) => {
                let from = if top + 1 < tokens.len() && tokens[top + 1].content == "\n"@ {
                    top + 2
                } else {
                    top + 1
                };
                lemma_term_finished(tokens, from);
                match term(tokens, from) {
                    Ok((second, after)) => {
                        if !(second is EOF) && top < after <= tokens.len() {
                            lemma_operands_finished(tokens, after, first, pending, second);
                        }
                    },
                    Err(_) => {},
                }
            },
            None => {},
        }
    }
}

/// The rest of an operation on finished operands is finished.
pub proof fn lemma_operands_finished(
    tokens: Seq<TokenView>,
    top: int,
    left: ExpressionView,
    pending: (Operand, u8),
    right: ExpressionView,
)
    requires
        0 <= top <= tokens.len(),
        finished_expression(left),
        finished_expression(right),
    ensures
        operands(tokens, top, left, pending, right) matches Ok((e, after)) ==> finished_expression(
            e,
        ) && top <= after <= tokens.len(),
    decreases tokens.len() - top, 0nat,
{
    if top < tokens.len() && tokens[top].token_type == TokenType::Operator {
        match Operand::parse(tokens[top].content) {
            Some(next) => {
                lemma_term_finished(tokens, top + 1);
                match term(tokens, top + 1) {
                    Ok((operand, after)) => {
                        if !(operand is EOF) && top < after <= tokens.len() {
                            if next.1 >= pending.1 {
                                lemma_operands_finished(
                                    tokens,
                                    after,
                                    ExpressionView::Operation {
                                        left: Box::new(left),
                                        op: pending.0,
                                        right: Box::new(right),
                                        position: current_at(tokens, top + 1).position,
                                    },
                                    next,
                                    operand,
                                );
                            } else {
                                lemma_operands_finished(
                                    tokens,
                                    after,
                                    left,
                                    pending,
                                    ExpressionView::Operation {
                                        left: Box::new(right),
                                        op: next.0,
                                        right: Box::new(operand),
                                        position: current_at(tokens, after).position,
                                    },
                                );
                            }
                        }
                    },
                    Err(_) => {},
                }
            },
            None => {},
        }
    }
}

/// A function literal is finished.
pub proof fn lemma_function_finished(tokens: Seq<TokenView>, top: int)
    requires
        0 <= top < tokens.len(),
    ensures
        function(tokens, top) matches Ok((e, after)) ==> finished_expression(e) && top < after
            <= tokens.len(),
    decreases tokens.len() - top, 0nat,
{
    if top < tokens.len() {
        lemma_skipped(tokens, top + 1);
        lemma_function_items_finished(tokens, skipped(tokens, top + 1), Seq::empty());
        match function_items(tokens, skipped(tokens, top + 1), Seq::empty()) {
            Ok((items, after)) => {
                assert(finished_statements(items));
                assert(finished_expression(ExpressionView::Block(items)));
            },
            Err(_) => {},
        }
    }
}

/// The arms and statements of a function literal are finished.
pub proof fn lemma_function_items_finished(
    tokens: Seq<TokenView>,
    top: int,
    items: Seq<StatementView>,
)
    requires
        0 <= top <= tokens.len(),
        finished_statements(items),
    ensures
        function_items(tokens, top, items) matches Ok((all, after)) ==> finished_statements(all)
            && top <= after <= tokens.len(),
    decreases tokens.len() - top, 5nat,
{
    if top < tokens.len() && tokens[top].content != "}"@ {
        if tokens[top].content == "|"@ {
            lemma_arm_finished(tokens, top);
            match arm(tokens, top) {
                Ok((found, after)) => {
                    if top < after <= tokens.len() {
                        let item = StatementView::Expression(Box::new(found));
                        let longer = items.push(item);
                        assert forall|i: int| 0 <= i < longer.len() implies finished_statement(
                            #[trigger] longer[i],
                        ) by {
                            if i < items.len() {
                                assert(longer[i] == items[i]);
                            }
                        }
                        lemma_function_items_finished(tokens, after, longer);
                    }
                },
                Err(_) => {},
            }
        } else {
            lemma_skipped(tokens, top);
            let from = skipped(tokens, top);
            if from < tokens.len() && tokens[from].content != "}"@ {
                lemma_statement_finished(tokens, from);
                match statement(tokens, from) {
                    Ok((found, after)) => {
                        if top < after <= tokens.len() {
                            let longer = items.push(found);
                            assert forall|i: int| 0 <= i < longer.len() implies finished_statement(
                                #[trigger] longer[i],
                            ) by {
                                if i < items.len() {
                                    assert(longer[i] == items[i]);
                                }
                            }
                            lemma_function_items_finished(tokens, after, longer);
                        }
                    },
                    Err(_) => {},
                }
            }
        }
    }
}

/// An arm is finished.
pub proof fn lemma_arm_finished(tokens: Seq<TokenView>, top: int)
    requires
        0 <= top < tokens.len(),
    ensures
        arm(tokens, top) matches Ok((e, after)) ==> finished_expression(e) && top < after
            <= tokens.len(),
    decreases tokens.len() - top, 4nat,
{
    if top < tokens.len() && tokens[top].content == "|"@ {
        lemma_parameters_finished(tokens, top + 1, Seq::empty());
        match parameters(tokens, top + 1, Seq::empty()) {
            Ok((params, after)) => {
                if top < after <= tokens.len() && current_at(tokens, after).content == "|"@ {
                    lemma_statement_finished(tokens, stepped(tokens, after));
                    match statement(tokens, stepped(tokens, after)) {
                        Ok((body, behind)) => {
                            if after <= behind <= tokens.len() {
                                lemma_skipped(tokens, behind);
                            }
                        },
                        Err(_) => {},
                    }
                }
            },
            Err(_) => {},
        }
    }
}

/// The parameters of an arm are finished.
pub proof fn lemma_parameters_finished(
    tokens: Seq<TokenView>,
    top: int,
    params: Seq<ExpressionView>,
)
    requires
        0 <= top <= tokens.len(),
        finished_expressions(params),
    ensures
        parameters(tokens, top, params) matches Ok((all, after)) ==> finished_expressions(all)
            && top <= after <= tokens.len(),
    decreases tokens.len() - top, 3nat,
{
    if top < tokens.len() && tokens[top].content != "|"@ {
        lemma_expression_finished(tokens, top);
        match expression(tokens, top) {
            Ok((param, after)) => {
                if !(param is EOF) && top < after <= tokens.len() {
                    let longer = params.push(param);
                    assert forall|i: int| 0 <= i < longer.len() implies finished_expression(
                        #[trigger] longer[i],
                    ) by {
                        if i < params.len() {
                            assert(longer[i] == params[i]);
                        }
                    }
                    if current_at(tokens, after).content == "|"@ {
                        lemma_parameters_finished(tokens, after, longer);
                    } else if current_at(tokens, after).content == ","@ {
                        lemma_parameters_finished(tokens, stepped(tokens, after), longer);
                    }
                }
            },
            Err(_) => {},
        }
    }
}

/// A statement is the bare mark, where only separating tokens are left, or
/// finished.
pub proof fn lemma_statement_finished(tokens: Seq<TokenView>, top: int)
    requires
        0 <= top <= tokens.len(),
    ensures
        statement(tokens, top) matches Ok((s, after)) ==> top <= after <= tokens.len() && (
        if has_more(tokens, top) {
            finished_statement(s) && top < after
        } else {
            s == StatementView::Expression(Box::new(ExpressionView::EOF))
        }),
    decreases tokens.len() - top, 3nat,
{
    if top <= tokens.len() {
        lemma_skipped(tokens, top);
        let from = skipped(tokens, top);
        if from < tokens.len() {
            if tokens[from].token_type == TokenType::Identifier && current_at(
                tokens,
                from + 1,
            ).content == "="@ {
                lemma_assignment_finished(
                    tokens,
                    from + 1,
                    ExpressionView::Identifier(tokens[from].content, tokens[from].position),
                );
            } else {
                lemma_expression_finished(tokens, from);
            }
        }
    }
}

/// An assignment to a finished target is finished.
pub proof fn lemma_assignment_finished(tokens: Seq<TokenView>, top: int, left: ExpressionView)
    requires
        0 <= top <= tokens.len(),
        finished_expression(left),
    ensures
        assignment(tokens, top, left) matches Ok((s, after)) ==> finished_statement(s) && top
            <= after <= tokens.len(),
    decreases tokens.len() - top, 3nat,
{
    lemma_expression_finished(tokens, stepped(tokens, top));
}

/// The statements of a program are finished.
pub proof fn lemma_program_rest_finished(
    tokens: Seq<TokenView>,
    top: int,
    statements: Seq<StatementView>,
)
    requires
        0 <= top,
        finished_statements(statements),
    ensures
        program(tokens, top, statements) matches Ok(all) ==> finished_statements(all),
    decreases tokens.len() - top, 6nat,
{
    if top < tokens.len() {
        lemma_skipped(tokens, top);
        let from = skipped(tokens, top);
        if from < tokens.len() {
            lemma_statement_finished(tokens, from);
            match statement(tokens, from) {
                Ok((found, after)) => {
                    let longer = statements.push(found);
                    assert forall|i: int| 0 <= i < longer.len() implies finished_statement(
                        #[trigger] longer[i],
                    ) by {
                        if i < statements.len() {
                            assert(longer[i] == statements[i]);
                        }
                    }
                    if top < after <= tokens.len() {
                        lemma_program_rest_finished(tokens, after, longer);
                    }
                },
                Err(_) => {},
            }
        }
    }
}

/// A program that was parsed is finished: the end-of-input mark is no part
/// of it, and every function literal in it stands over a block.
pub proof fn lemma_program_finished(tokens: Seq<TokenView>)
    ensures
        program(tokens, 0, Seq::empty()) matches Ok(all) ==> finished_statements(all),
{
    lemma_program_rest_finished(tokens, 0, Seq::empty());
}

/// A finished expression can be lowered.
pub proof fn lemma_finished_expression_lowers(e: ExpressionView)
    requires
        finished_expression(e),
    ensures
        lua_expression_text(e) is Ok,
    decreases e, 0nat,
{
    match e {
        ExpressionView::Operation { left, op, right, position } => {
            lemma_finished_expression_lowers(*left);
            lemma_finished_expression_lowers(*right);
        },
        ExpressionView::Call { callee, args, position } => {
            lemma_finished_expression_lowers(*callee);
            lemma_finished_arguments_lower(args, args.len());
        },
        ExpressionView::Function { arms, position } => {
            match *arms {
                ExpressionView::Block(statements) => {
                    assert(finished_expression(*arms));
                    lemma_finished_metamethods_lower(statements, statements.len());
                    lemma_finished_body_lowers(statements, statements.len());
                },
                _ => {},
            }
        },
        ExpressionView::Arm { params, body, position } => {
            lemma_finished_guards_lower(params, params.len());
            lemma_finished_statement_lowers(*body);
            lemma_finished_result_lowers(*body);
        },
        ExpressionView::Block(statements) => {
            lemma_finished_statements_lower(statements, statements.len());
        },
        _ => {},
    }
}

/// A finished statement can be lowered.
pub proof fn lemma_finished_statement_lowers(s: StatementView)
    requires
        finished_statement(s),
    ensures
        lua_statement_text(s) is Ok,
    decreases s, 0nat,
{
    match s {
        StatementView::Expression(e) => {
            lemma_finished_expression_lowers(*e);
        },
        StatementView::Assignment { left, right, position } => {
            lemma_finished_expression_lowers(*left);
            lemma_finished_expression_lowers(*right);
        },
    }
}

/// The line that hands back the value of a finished body can be lowered.
pub proof fn lemma_finished_result_lowers(body: StatementView)
    requires
        finished_statement(body),
    ensures
        lua_result_text(body) is Ok,
    decreases body, 0nat,
{
    match body {
        StatementView::Expression(value) => {
            lemma_finished_expression_lowers(*value);
        },
        _ => {},
    }
}

/// Finished statements can be lowered.
pub proof fn lemma_finished_statements_lower(statements: Seq<StatementView>, n: nat)
    requires
        n <= statements.len(),
        finished_statements(statements),
    ensures
        lua_statements_text(statements, n) is Ok,
    decreases statements, n,
{
    if n > 0 {
        lemma_finished_statements_lower(statements, (n - 1) as nat);
        lemma_finished_statement_lowers(statements[n - 1]);
    }
}

/// Finished arguments can be lowered.
pub proof fn lemma_finished_arguments_lower(args: Seq<ExpressionView>, n: nat)
    requires
        n <= args.len(),
        finished_expressions(args),
    ensures
        lua_arguments_text(args, n) is Ok,
    decreases args, n,
{
    if n > 0 {
        lemma_finished_arguments_lower(args, (n - 1) as nat);
        lemma_finished_expression_lowers(args[n - 1]);
    }
}

/// The table entry of a finished statement can be lowered.
pub proof fn lemma_finished_metamethod_lowers(s: StatementView)
    requires
        finished_statement(s),
    ensures
        lua_metamethod_text(s) is Ok,
    decreases s, 0nat,
{
    match s {
        StatementView::Expression(e) => {
            match *e {
                ExpressionView::Arm { params, body, position } => {
                    if params.len() >= 2 {
                        lemma_finished_expression_lowers(params[1]);
                    }
                    lemma_finished_result_lowers(*body);
                    lemma_finished_statement_lowers(*body);
                },
                _ => {},
            }
        },
        _ => {},
    }
}

/// The table entries of finished statements can be lowered.
pub proof fn lemma_finished_metamethods_lower(statements: Seq<StatementView>, n: nat)
    requires
        n <= statements.len(),
        finished_statements(statements),
    ensures
        lua_metamethods_text(statements, n) is Ok,
    decreases statements, n,
{
    if n > 0 {
        lemma_finished_metamethods_lower(statements, (n - 1) as nat);
        lemma_finished_metamethod_lowers(statements[n - 1]);
    }
}

/// The body lines of finished statements can be lowered.
pub proof fn lemma_finished_body_lowers(statements: Seq<StatementView>, n: nat)
    requires
        n <= statements.len(),
        finished_statements(statements),
    ensures
        lua_body_text(statements, n) is Ok,
    decreases statements, n,
{
    if n > 0 {
        lemma_finished_body_lowers(statements, (n - 1) as nat);
        lemma_finished_statement_lowers(statements[n - 1]);
    }
}

/// The guards of finished parameters can be lowered.
pub proof fn lemma_finished_guards_lower(params: Seq<ExpressionView>, n: nat)
    requires
        n <= params.len(),
        finished_expressions(params),
    ensures
        lua_guards_text(params, n) is Ok,
    decreases params, n,
{
    if n > 0 {
        lemma_finished_guards_lower(params, (n - 1) as nat);
        lemma_finished_expression_lowers(params[n - 1]);
    }
}

/// A program that was parsed can be lowered: the code generator fails on
/// no tree that the parser leaves.
pub proof fn lemma_parsed_program_lowers(tokens: Seq<TokenView>)
    ensures
        program(tokens, 0, Seq::empty()) matches Ok(all) ==> lua_statements_text(all, all.len())
            is Ok,
{
    lemma_program_finished(tokens);
    match program(tokens, 0, Seq::empty()) {
        Ok(all) => {
            lemma_finished_statements_lower(all, all.len());
        },
        Err(_) => {},
    }
}

} // verus!
