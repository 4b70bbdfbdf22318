//! The code generator: a syntax tree lowered to Lua source text.

use vstd::prelude::*;
use crate::ast::{
    expressions_view, statements_view, Arm, Call, Expression, ExpressionView, Function, Operand,
    Operation, Statement, StatementView,
};
use crate::error::TranspileError;
use crate::text::{decimal, decimal_text, push_char, str_equal};
use crate::token::TokenPosition;

verus! {

/// What lowering gives: the target text, or the position of the function
/// literal that cannot be lowered.
pub type Lowered = Result<Seq<char>, TokenPosition>;

/// The message of the one error that lowering can give.
pub open spec fn malformed_function_message() -> Seq<char> {
    "function literal without a block of arms"@
}

/// One text after another; the first failure wins.
pub open spec fn join(a: Lowered, b: Lowered) -> Lowered {
    match a {
        Err(p) => Err(p),
        Ok(x) => match b {
            Err(p) => Err(p),
            Ok(y) => Ok(x + y),
        },
    }
}

/// Three texts in a row.
pub open spec fn join3(a: Lowered, b: Lowered, c: Lowered) -> Lowered {
    join(join(a, b), c)
}

/// Four texts in a row.
pub open spec fn join4(a: Lowered, b: Lowered, c: Lowered, d: Lowered) -> Lowered {
    join(join3(a, b, c), d)
}

/// Five texts in a row.
pub open spec fn join5(a: Lowered, b: Lowered, c: Lowered, d: Lowered, e: Lowered) -> Lowered {
    join(join4(a, b, c, d), e)
}

/// Whether a name of the source language is a word that the target language
/// keeps for itself.
pub open spec fn reserved_word(name: Seq<char>) -> bool {
    name == "while"@ || name == "if"@ || name == "else"@ || name == "elseif"@ || name == "do"@
        || name == "local"@ || name == "end"@ || name == "for"@ || name == "self"@ || name
        == "then"@
}

/// The name by which the target text calls a name of the source: a
/// reserved word gets an underscore in front.
pub open spec fn lua_name(name: Seq<char>) -> Seq<char> {
    if reserved_word(name) {
        "_"@ + name
    } else {
        name
    }
}

/// The value that stands for an operator used as a pattern.
pub open spec fn lua_operand_text(op: Operand) -> Seq<char> {
    if op == Operand::Add {
        "__add"@
    } else {
        Seq::empty()
    }
}

/// The text of an operation whose two sides are already lowered.
pub open spec fn lua_operation_text(op: Operand, left: Seq<char>, right: Seq<char>) -> Seq<char> {
    match op {
        Operand::Combine => "function(__a) return "@ + left + "("@ + right + "(__a)) end\n"@,
        Operand::PipeLeft => left + "("@ + right + ")\n"@,
        Operand::PipeRight => right + "("@ + left + ")\n"@,
        _ => "("@ + left + op.target_token() + right + ")"@,
    }
}

/// Whether a parameter of an arm is a pattern that the argument is compared
/// with, rather than a name that is bound to it.
pub open spec fn is_pattern(p: ExpressionView) -> bool {
    p is Number || p is Bool || p is Char || p is Operation || p is Str
}

/// Whether a parameter of an arm is a name that the argument is bound to.
pub open spec fn is_binding(p: ExpressionView) -> bool {
    p matches ExpressionView::Identifier(id, _) && Operand::parse(id) is None
}

/// The argument list entry that holds the argument for the parameter at
/// `index`: the callable itself comes first, and the list counts from 1.
pub open spec fn argument_slot(index: nat) -> Seq<char> {
    "__args["@ + decimal(index + 2) + "]"@
}

/// The declarations that bind the names among the first `n` parameters.
pub open spec fn lua_bindings_text(params: Seq<ExpressionView>, n: nat) -> Seq<char>
    decreases n,
{
    if n == 0 || n > params.len() {
        Seq::empty()
    } else {
        let p = params[n - 1];
        lua_bindings_text(params, (n - 1) as nat) + (if is_binding(p) {
            "local "@ + lua_name(p->Identifier_0) + " = "@ + argument_slot((n - 1) as nat) + "\n"@
        } else {
            Seq::empty()
        })
    }
}

/// How many of the first `n` parameters are patterns.
pub open spec fn pattern_count(params: Seq<ExpressionView>, n: nat) -> nat
    decreases n,
{
    if n == 0 || n > params.len() {
        0
    } else {
        pattern_count(params, (n - 1) as nat) + (if is_pattern(params[n - 1]) {
            1nat
        } else {
            0nat
        })
    }
}

/// `count` times the line that closes a guard.
pub open spec fn lua_closers_text(count: nat) -> Seq<char>
    decreases count,
{
    if count == 0 {
        Seq::empty()
    } else {
        lua_closers_text((count - 1) as nat) + "end\n"@
    }
}

/// The text of an expression in the target language.
///
/// Literals lower to themselves, text in double quotes. A name that the
/// target reserves gets an underscore. `.` composes two callables, the
/// pipes apply one side to the other, every other operator is written
/// infix in parentheses. A function literal becomes a callable table that
/// tries its arms in the order in which they are written.
pub open spec fn lua_expression_text(e: ExpressionView) -> Lowered
    decreases e, 0nat,
{
    match e {
        ExpressionView::Number(n) => Ok(n),
        ExpressionView::Str(s) => Ok("\""@ + s + "\""@),
        ExpressionView::Bool(b) => Ok(
            if b {
                "true"@
            } else {
                "false"@
            },
        ),
        ExpressionView::Char(c) => Ok("\""@ + seq![c] + "\""@),
        ExpressionView::Operand(op) => Ok(lua_operand_text(op)),
        ExpressionView::Identifier(name, _) => Ok(lua_name(name)),
        ExpressionView::Operation { left, op, right, position } => match lua_expression_text(
            *left,
        ) {
            Err(p) => Err(p),
            Ok(l) => match lua_expression_text(*right) {
                Err(p) => Err(p),
                Ok(r) => Ok(lua_operation_text(op, l, r)),
            },
        },
        ExpressionView::Call { callee, args, position } => join5(
            Ok("("@),
            lua_expression_text(*callee),
            Ok(")("@),
            lua_arguments_text(args, args.len()),
            Ok(")"@),
        ),
        ExpressionView::Function { arms, position } => match *arms {
            ExpressionView::Block(statements) => join5(
                Ok("setmetatable({}, {"@),
                lua_metamethods_text(statements, statements.len()),
                Ok("__call = function(...)\nlocal __args = {...}\n"@),
                lua_body_text(statements, statements.len()),
                Ok("end,\n})"@),
            ),
            _ => Err(position),
        },
        ExpressionView::Arm { params, body, position } => join3(
            Ok(
                "if "@ + decimal(params.len() + 1) + " == #__args then\n"@ + lua_bindings_text(
                    params,
                    params.len(),
                ),
            ),
            if pattern_count(params, params.len()) == 0 {
                lua_result_text(*body)
            } else {
                join4(
                    lua_guards_text(params, params.len()),
                    Ok(
                        if (*body matches StatementView::Expression(value) && !(*value
                            is Block)) {
                            "return "@
                        } else {
                            Seq::empty()
                        },
                    ),
                    lua_statement_text(*body),
                    Ok("\n"@ + lua_closers_text(pattern_count(params, params.len()))),
                )
            },
            Ok("end\n"@),
        ),
        ExpressionView::Block(statements) => lua_statements_text(statements, statements.len()),
        ExpressionView::Index { .. } => Ok(Seq::empty()),
        ExpressionView::EOF => Ok(Seq::empty()),
    }
}

/// The text of a statement: that of the expression, or a declaration of a
/// local name that ends its line.
pub open spec fn lua_statement_text(s: StatementView) -> Lowered
    decreases s, 0nat,
{
    match s {
        StatementView::Expression(e) => lua_expression_text(*e),
        StatementView::Assignment { left, right, position } => join5(
            Ok("local "@),
            lua_expression_text(*left),
            Ok("="@),
            lua_expression_text(*right),
            Ok("\n"@),
        ),
    }
}

/// The line that hands back the value of a body that is an expression;
/// nothing for a body that is an assignment.
pub open spec fn lua_result_text(body: StatementView) -> Lowered
    decreases body, 0nat,
{
    match body {
        StatementView::Expression(value) => join3(
            Ok("return "@),
            lua_expression_text(*value),
            Ok("\n"@),
        ),
        _ => Ok(Seq::empty()),
    }
}

/// The texts of the first `n` statements, one after another.
pub open spec fn lua_statements_text(statements: Seq<StatementView>, n: nat) -> Lowered
    decreases statements, n,
{
    if n == 0 || n > statements.len() {
        Ok(Seq::empty())
    } else {
        join(
            lua_statements_text(statements, (n - 1) as nat),
            lua_statement_text(statements[n - 1]),
        )
    }
}

/// The texts of the first `n` arguments of a call, with a comma between two.
pub open spec fn lua_arguments_text(args: Seq<ExpressionView>, n: nat) -> Lowered
    decreases args, n,
{
    if n == 0 || n > args.len() {
        Ok(Seq::empty())
    } else {
        join3(
            lua_arguments_text(args, (n - 1) as nat),
            lua_expression_text(args[n - 1]),
            Ok(
                if n == args.len() {
                    Seq::empty()
                } else {
                    ","@
                },
            ),
        )
    }
}

/// The entry of the callable's table for an arm whose first parameter is an
/// operator and that has a second one; nothing for any other statement.
pub open spec fn lua_metamethod_text(s: StatementView) -> Lowered
    decreases s, 0nat,
{
    match s {
        StatementView::Expression(e) => match *e {
            ExpressionView::Arm { params, body, position } => if params.len() >= 2 && params[0]
                is Operand {
                join5(
                    Ok(lua_operand_text(params[0]->Operand_0) + " = function(_, "@),
                    lua_expression_text(params[1]),
                    Ok(")\n"@),
                    match *body {
                        StatementView::Expression(value) => lua_result_text(*body),
                        _ => lua_statement_text(*body),
                    },
                    Ok("end,\n"@),
                )
            } else {
                Ok(Seq::empty())
            },
            _ => Ok(Seq::empty()),
        },
        _ => Ok(Seq::empty()),
    }
}

/// The table entries for the first `n` statements of a function literal.
pub open spec fn lua_metamethods_text(statements: Seq<StatementView>, n: nat) -> Lowered
    decreases statements, n,
{
    if n == 0 || n > statements.len() {
        Ok(Seq::empty())
    } else {
        join(
            lua_metamethods_text(statements, (n - 1) as nat),
            lua_metamethod_text(statements[n - 1]),
        )
    }
}

/// Whether the statement at `index` gives the function literal its result:
/// it is the last one, and an expression that is no arm.
pub open spec fn returns_value(statements: Seq<StatementView>, index: int) -> bool {
    index + 1 == statements.len() && (statements[index] matches StatementView::Expression(e)
        && !(*e is Arm))
}

/// The lines of the callable's body for the first `n` statements of a
/// function literal.
pub open spec fn lua_body_text(statements: Seq<StatementView>, n: nat) -> Lowered
    decreases statements, n,
{
    if n == 0 || n > statements.len() {
        Ok(Seq::empty())
    } else {
        join4(
            lua_body_text(statements, (n - 1) as nat),
            Ok(
                if returns_value(statements, n - 1) {
                    "return "@
                } else {
                    Seq::empty()
                },
            ),
            lua_statement_text(statements[n - 1]),
            Ok("\n"@),
        )
    }
}

/// The lines that open a guard for each pattern among the first `n`
/// parameters of an arm: the argument in that place must equal the pattern.
pub open spec fn lua_guards_text(params: Seq<ExpressionView>, n: nat) -> Lowered
    decreases params, n,
{
    if n == 0 || n > params.len() {
        Ok(Seq::empty())
    } else {
        if is_pattern(params[n - 1]) {
            join4(
                lua_guards_text(params, (n - 1) as nat),
                Ok("if "@),
                lua_expression_text(params[n - 1]),
                Ok(" == "@ + argument_slot((n - 1) as nat) + " then\n"@),
            )
        } else {
            lua_guards_text(params, (n - 1) as nat)
        }
    }
}


/// Once the texts of some statements fail, more statements change nothing.
pub proof fn lemma_statements_failure_stays(statements: Seq<StatementView>, k: nat, n: nat)
    requires
        k <= n <= statements.len(),
        lua_statements_text(statements, k) is Err,
    ensures
        lua_statements_text(statements, n) == lua_statements_text(statements, k),
    decreases n - k,
{
    if k < n {
        lemma_statements_failure_stays(statements, k, (n - 1) as nat);
    }
}

/// Once the texts of some arguments fail, more arguments change nothing.
pub proof fn lemma_arguments_failure_stays(args: Seq<ExpressionView>, k: nat, n: nat)
    requires
        k <= n <= args.len(),
        lua_arguments_text(args, k) is Err,
    ensures
        lua_arguments_text(args, n) == lua_arguments_text(args, k),
    decreases n - k,
{
    if k < n {
        lemma_arguments_failure_stays(args, k, (n - 1) as nat);
    }
}

/// Once the table entries of some statements fail, more statements change
/// nothing.
pub proof fn lemma_metamethods_failure_stays(statements: Seq<StatementView>, k: nat, n: nat)
    requires
        k <= n <= statements.len(),
        lua_metamethods_text(statements, k) is Err,
    ensures
        lua_metamethods_text(statements, n) == lua_metamethods_text(statements, k),
    decreases n - k,
{
    if k < n {
        lemma_metamethods_failure_stays(statements, k, (n - 1) as nat);
    }
}

/// Once the body lines of some statements fail, more statements change
/// nothing.
pub proof fn lemma_body_failure_stays(statements: Seq<StatementView>, k: nat, n: nat)
    requires
        k <= n <= statements.len(),
        lua_body_text(statements, k) is Err,
    ensures
        lua_body_text(statements, n) == lua_body_text(statements, k),
    decreases n - k,
{
    if k < n {
        lemma_body_failure_stays(statements, k, (n - 1) as nat);
    }
}

/// Once the guards of some parameters fail, more parameters change nothing.
pub proof fn lemma_guards_failure_stays(params: Seq<ExpressionView>, k: nat, n: nat)
    requires
        k <= n <= params.len(),
        lua_guards_text(params, k) is Err,
    ensures
        lua_guards_text(params, n) == lua_guards_text(params, k),
    decreases n - k,
{
    if k < n {
        lemma_guards_failure_stays(params, k, (n - 1) as nat);
    }
}

/// Guards that fail come from a pattern.
pub proof fn lemma_failed_guards_have_pattern(params: Seq<ExpressionView>, n: nat)
    requires
        n <= params.len(),
        lua_guards_text(params, n) is Err,
    ensures
        pattern_count(params, n) > 0,
    decreases n,
{
    if n > 0 {
        if !is_pattern(params[n - 1]) {
            lemma_failed_guards_have_pattern(params, (n - 1) as nat);
        }
    }
}

/// The lines of a function literal stand in the order of its statements:
/// the lines for the first `k` statements are the beginning of the lines
/// for the first `n`.
pub proof fn lemma_body_is_in_order(statements: Seq<StatementView>, k: nat, n: nat)
    requires
        k <= n <= statements.len(),
        lua_body_text(statements, n) is Ok,
    ensures
        lua_body_text(statements, k) is Ok,
        lua_body_text(statements, k)->Ok_0.len() <= lua_body_text(statements, n)->Ok_0.len(),
        lua_body_text(statements, n)->Ok_0.subrange(
            0,
            lua_body_text(statements, k)->Ok_0.len() as int,
        ) == lua_body_text(statements, k)->Ok_0,
    decreases n - k,
{
    let long = lua_body_text(statements, n)->Ok_0;
    if k < n {
        lemma_body_is_in_order(statements, k, (n - 1) as nat);
        let middle = lua_body_text(statements, (n - 1) as nat)->Ok_0;
        let short = lua_body_text(statements, k)->Ok_0;
        assert(long.subrange(0, middle.len() as int) =~= middle);
        assert(long.subrange(0, short.len() as int) =~= middle.subrange(0, short.len() as int));
    } else {
        assert(long.subrange(0, long.len() as int) =~= long);
    }
}

/// The line of an arm among the statements of a function literal is the
/// text of the arm, behind the lines of the statements before it.
pub proof fn lemma_arm_line(statements: Seq<StatementView>, n: nat)
    requires
        0 < n <= statements.len(),
        statements[n - 1] matches StatementView::Expression(e) && *e is Arm,
        lua_body_text(statements, n) is Ok,
    ensures
        lua_body_text(statements, (n - 1) as nat) is Ok,
        lua_statement_text(statements[n - 1]) is Ok,
        lua_body_text(statements, n)->Ok_0 == lua_body_text(statements, (n - 1) as nat)->Ok_0
            + lua_statement_text(statements[n - 1])->Ok_0 + "\n"@,
{
    let before = lua_body_text(statements, (n - 1) as nat)->Ok_0;
    let line = lua_statement_text(statements[n - 1])->Ok_0;
    assert(before + Seq::<char>::empty() + line + "\n"@ =~= before + line + "\n"@);
}

/// An arm with one parameter that is a pattern, and an expression that is
/// no block as its body: the branch for one argument, within it the test
/// of the argument against the pattern, and within that the body handed
/// back.
pub proof fn lemma_pattern_arm_text(
    pattern: ExpressionView,
    value: ExpressionView,
    position: TokenPosition,
)
    requires
        is_pattern(pattern),
        !(value is Block),
        lua_expression_text(pattern) is Ok,
        lua_expression_text(value) is Ok,
    ensures
        lua_expression_text(
            ExpressionView::Arm {
                params: seq![pattern],
                body: Box::new(StatementView::Expression(Box::new(value))),
                position,
            },
        ) == Ok::<Seq<char>, TokenPosition>(
            "if "@ + decimal(2) + " == #__args then\n"@ + "if "@ + lua_expression_text(
                pattern,
            )->Ok_0 + " == "@ + argument_slot(0) + " then\n"@ + "return "@ + lua_expression_text(
                value,
            )->Ok_0 + "\n"@ + "end\n"@ + "end\n"@,
        ),
{
    let params = seq![pattern];
    let body = StatementView::Expression(Box::new(value));
    let p = lua_expression_text(pattern)->Ok_0;
    let v = lua_expression_text(value)->Ok_0;
    reveal_with_fuel(lua_bindings_text, 2);
    reveal_with_fuel(pattern_count, 2);
    reveal_with_fuel(lua_guards_text, 2);
    reveal_with_fuel(lua_closers_text, 2);
    assert(lua_bindings_text(params, 1) =~= Seq::<char>::empty());
    assert(pattern_count(params, 1) == 1);
    assert(lua_closers_text(1) =~= "end\n"@);
    assert(lua_guards_text(params, 1) == Ok::<Seq<char>, TokenPosition>(
        Seq::<char>::empty() + "if "@ + p + (" == "@ + argument_slot(0) + " then\n"@),
    ));
    assert(lua_statement_text(body) == Ok::<Seq<char>, TokenPosition>(v));
    let head = "if "@ + decimal(2) + " == #__args then\n"@ + lua_bindings_text(params, 1);
    let guarded = Seq::<char>::empty() + "if "@ + p + (" == "@ + argument_slot(0) + " then\n"@)
        + "return "@ + v + ("\n"@ + lua_closers_text(1));
    assert(head + guarded + "end\n"@ =~= "if "@ + decimal(2) + " == #__args then\n"@ + "if "@ + p
        + " == "@ + argument_slot(0) + " then\n"@ + "return "@ + v + "\n"@ + "end\n"@ + "end\n"@);
}

/// An arm with one parameter that is a name, and an expression as its
/// body: the branch for one argument, within it the name bound to the
/// argument and the body handed back, whatever the argument is.
pub proof fn lemma_binding_arm_text(
    name: Seq<char>,
    at: TokenPosition,
    value: ExpressionView,
    position: TokenPosition,
)
    requires
        Operand::parse(name) is None,
        lua_expression_text(value) is Ok,
    ensures
        lua_expression_text(
            ExpressionView::Arm {
                params: seq![ExpressionView::Identifier(name, at)],
                body: Box::new(StatementView::Expression(Box::new(value))),
                position,
            },
        ) == Ok::<Seq<char>, TokenPosition>(
            "if "@ + decimal(2) + " == #__args then\n"@ + "local "@ + lua_name(name) + " = "@
                + argument_slot(0) + "\n"@ + "return "@ + lua_expression_text(value)->Ok_0 + "\n"@
                + "end\n"@,
        ),
{
    let params = seq![ExpressionView::Identifier(name, at)];
    let v = lua_expression_text(value)->Ok_0;
    reveal_with_fuel(lua_bindings_text, 2);
    reveal_with_fuel(pattern_count, 2);
    let binding = "local "@ + lua_name(name) + " = "@ + argument_slot(0) + "\n"@;
    assert(lua_bindings_text(params, 1) =~= binding);
    assert(pattern_count(params, 1) == 0);
    let head = "if "@ + decimal(2) + " == #__args then\n"@ + lua_bindings_text(params, 1);
    let result = "return "@ + v + "\n"@;
    let body = StatementView::Expression(Box::new(value));
    assert(lua_result_text(body) == Ok::<Seq<char>, TokenPosition>(result));
    assert(lua_expression_text(
        ExpressionView::Arm { params, body: Box::new(body), position },
    ) == Ok::<Seq<char>, TokenPosition>(head + result + "end\n"@));
    assert(head + result + "end\n"@ =~= "if "@ + decimal(2) + " == #__args then\n"@ + "local "@
        + lua_name(name) + " = "@ + argument_slot(0) + "\n"@ + "return "@ + v + "\n"@ + "end\n"@);
}

/// An assignment to a name lowers to one declaration of a local name: the
/// word `local`, the name, `=`, the text of the right side, and a line end.
pub proof fn lemma_assignment_text(
    name: Seq<char>,
    at: TokenPosition,
    right: ExpressionView,
    position: TokenPosition,
)
    requires
        lua_expression_text(right) is Ok,
    ensures
        lua_statement_text(
            StatementView::Assignment {
                left: Box::new(ExpressionView::Identifier(name, at)),
                right: Box::new(right),
                position,
            },
        ) == Ok::<Seq<char>, TokenPosition>(
            "local "@ + lua_name(name) + "="@ + lua_expression_text(right)->Ok_0 + "\n"@,
        ),
{
}

/// The text of a function literal over a block: the table, its entries,
/// and one call handler that takes the arguments as they come and holds
/// the lines of the statements.
pub proof fn lemma_function_text(statements: Seq<StatementView>, position: TokenPosition)
    requires
        lua_metamethods_text(statements, statements.len()) is Ok,
        lua_body_text(statements, statements.len()) is Ok,
    ensures
        lua_expression_text(
            ExpressionView::Function {
                arms: Box::new(ExpressionView::Block(statements)),
                position,
            },
        ) == Ok::<Seq<char>, TokenPosition>(
            "setmetatable({}, {"@ + lua_metamethods_text(statements, statements.len())->Ok_0
                + "__call = function(...)\nlocal __args = {...}\n"@ + lua_body_text(
                statements,
                statements.len(),
            )->Ok_0 + "end,\n})"@,
        ),
{
}

/// Whether a result of the code generator is what lowering gives.
pub open spec fn lowers_to(r: Result<String, TranspileError>, text: Lowered) -> bool {
    match r {
        Ok(s) => text == Ok::<Seq<char>, TokenPosition>(s@),
        Err(e) => text == Err::<Seq<char>, TokenPosition>(e.position->0) && e.position is Some
            && e.message() == malformed_function_message(),
    }
}

/// The code generator for one program.
pub struct Transpiler {
    pub ast: Vec<Statement>,
}

/// Whether `name` is a word that the target language keeps for itself.
fn is_reserved(name: &str) -> (r: bool)
    ensures
        r == reserved_word(name@),
{
    str_equal(name, "while") || str_equal(name, "if") || str_equal(name, "else") || str_equal(
        name,
        "elseif",
    ) || str_equal(name, "do") || str_equal(name, "local") || str_equal(name, "end") || str_equal(
        name,
        "for",
    ) || str_equal(name, "self") || str_equal(name, "then")
}

/// The name by which the target text calls `name`.
fn lua_identifier(name: &str) -> (s: String)
    ensures
        s@ == lua_name(name@),
{
    if is_reserved(name) {
        let mut s = String::from_str("_");
        s.append(name);
        s
    } else {
        String::from_str(name)
    }
}

/// The entry of the argument list for the parameter at `index`.
fn lua_argument_slot(index: usize) -> (s: String)
    ensures
        s@ == argument_slot(index as nat),
{
    let mut s = String::from_str("__args[");
    s.append(decimal_text(index as u128 + 2).as_str());
    s.append("]");
    s
}

impl Transpiler {
    pub fn new(ast: Vec<Statement>) -> (t: Transpiler)
        ensures
            t.ast == ast,
    {
        Transpiler { ast }
    }

    /// The target text of the whole program: the texts of its statements,
    /// one after another.
    pub fn lua(&self) -> (r: Result<String, TranspileError>)
        ensures
            lowers_to(r, lua_statements_text(statements_view(self.ast@), self.ast@.len())),
    {
        self.lua_statements(&self.ast)
    }

    /// The texts of `statements`, one after another.
    fn lua_statements(&self, statements: &Vec<Statement>) -> (r: Result<String, TranspileError>)
        ensures
            lowers_to(r, lua_statements_text(statements_view(statements@), statements@.len())),
        decreases statements,
    {
        let ghost views = statements_view(statements@);
        let mut result = String::new();
        let mut i: usize = 0;
        while i < statements.len()
            invariant
                i <= statements.len(),
                views == statements_view(statements@),
                lua_statements_text(views, i as nat) == Ok::<Seq<char>, TokenPosition>(result@),
            decreases statements.len() - i,
        {
            assert(decreases_to!(statements => statements[i as int]));
            assert(views[i as int] == statements[i as int]@);
            match self.lua_statement(&statements[i]) {
                Ok(text) => {
                    result.append(text.as_str());
                },
                Err(e) => {
                    proof {
                        lemma_statements_failure_stays(views, (i + 1) as nat, views.len());
                    }
                    return Err(e);
                },
            }
            i += 1;
        }
        Ok(result)
    }

    /// The target text of one statement.
    pub fn lua_statement(&self, statement: &Statement) -> (r: Result<String, TranspileError>)
        ensures
            lowers_to(r, lua_statement_text(statement@)),
        decreases statement,
    {
        match statement {
            Statement::Expression(expression) => self.lua_expression(expression),
            Statement::Assignment(assignment) => {
                let mut result = String::from_str("local ");
                match self.lua_expression(&assignment.left) {
                    Ok(text) => result.append(text.as_str()),
                    Err(e) => {
                        return Err(e);
                    },
                }
                result.append("=");
                match self.lua_expression(&assignment.right) {
                    Ok(text) => result.append(text.as_str()),
                    Err(e) => {
                        return Err(e);
                    },
                }
                result.append("\n");
                Ok(result)
            },
        }
    }

    /// The target text of one expression.
    pub fn lua_expression(&self, expression: &Expression) -> (r: Result<String, TranspileError>)
        ensures
            lowers_to(r, lua_expression_text(expression@)),
        decreases expression,
    {
        match expression {
            Expression::Number(n) => Ok(n.clone()),
            Expression::Str(n) => {
                let mut result = String::from_str("\"");
                result.append(n.as_str());
                result.append("\"");
                Ok(result)
            },
            Expression::Bool(n) => Ok(
                if *n {
                    String::from_str("true")
                } else {
                    String::from_str("false")
                },
            ),
            Expression::Char(n) => {
                let mut letter = String::new();
                push_char(&mut letter, *n);
                assert(letter@ == seq![*n]);
                let mut result = String::from_str("\"");
                result.append(letter.as_str());
                result.append("\"");
                Ok(result)
            },
            Expression::Operand(op) => Ok(lua_operand(*op)),
            Expression::Identifier(n, _) => Ok(lua_identifier(n.as_str())),
            Expression::Operation(operation) => self.lua_operation(operation),
            Expression::Call(call) => self.lua_call(call),
            Expression::Function(function) => self.lua_function(function),
            Expression::Arm(arm) => self.lua_arm(arm),
            Expression::Block(statements) => self.lua_statements(statements),
            Expression::Index(_) => Ok(String::new()),
            Expression::EOF => Ok(String::new()),
        }
    }

    /// The target text of an operation.
    fn lua_operation(&self, operation: &Operation) -> (r: Result<String, TranspileError>)
        ensures
            lowers_to(r, lua_expression_text(Expression::Operation(*operation)@)),
        decreases operation,
    {
        let left = match self.lua_expression(&operation.left) {
            Ok(text) => text,
            Err(e) => {
                return Err(e);
            },
        };
        let right = match self.lua_expression(&operation.right) {
            Ok(text) => text,
            Err(e) => {
                return Err(e);
            },
        };
        match operation.op {
            Operand::Combine => {
                let mut result = String::from_str("function(__a) return ");
                result.append(left.as_str());
                result.append("(");
                result.append(right.as_str());
                result.append("(__a)) end\n");
                Ok(result)
            },
            Operand::PipeLeft => {
                let mut result = left;
                result.append("(");
                result.append(right.as_str());
                result.append(")\n");
                Ok(result)
            },
            Operand::PipeRight => {
                let mut result = right;
                result.append("(");
                result.append(left.as_str());
                result.append(")\n");
                Ok(result)
            },
            _ => {
                let mut result = String::from_str("(");
                result.append(left.as_str());
                result.append(operation.op.to_string().as_str());
                result.append(right.as_str());
                result.append(")");
                Ok(result)
            },
        }
    }

    /// The target text of a call: the callee in parentheses, then the
    /// arguments in parentheses with commas between them.
    fn lua_call(&self, call: &Call) -> (r: Result<String, TranspileError>)
        ensures
            lowers_to(r, lua_expression_text(Expression::Call(*call)@)),
        decreases call,
    {
        let mut result = String::from_str("(");
        match self.lua_expression(&call.callee) {
            Ok(text) => result.append(text.as_str()),
            Err(e) => {
                return Err(e);
            },
        }
        result.append(")(");
        match self.lua_arguments(&call.args) {
            Ok(text) => result.append(text.as_str()),
            Err(e) => {
                return Err(e);
            },
        }
        result.append(")");
        Ok(result)
    }

    /// The texts of the arguments of a call, with a comma between two.
    fn lua_arguments(&self, arguments: &Vec<Expression>) -> (r: Result<String, TranspileError>)
        ensures
            lowers_to(r, lua_arguments_text(expressions_view(arguments@), arguments@.len())),
        decreases arguments,
    {
        let ghost args = expressions_view(arguments@);
        let mut list = String::new();
        let mut i: usize = 0;
        while i < arguments.len()
            invariant
                i <= arguments.len(),
                args == expressions_view(arguments@),
                lua_arguments_text(args, i as nat) == Ok::<Seq<char>, TokenPosition>(list@),
            decreases arguments.len() - i,
        {
            assert(decreases_to!(arguments => arguments[i as int]));
            assert(args[i as int] == arguments[i as int]@);
            match self.lua_expression(&arguments[i]) {
                Ok(text) => {
                    list.append(text.as_str());
                },
                Err(e) => {
                    proof {
                        lemma_arguments_failure_stays(args, (i + 1) as nat, args.len());
                    }
                    return Err(e);
                },
            }
            if i + 1 != arguments.len() {
                list.append(",");
            } else {
                assert(list@ + Seq::<char>::empty() =~= list@);
            }
            i += 1;
        }
        Ok(list)
    }

    /// The target text of a function literal: a table that can be called.
    /// Its call handler takes the arguments as they come and runs the
    /// statements of the literal in the order in which they are written.
    fn lua_function(&self, function: &Function) -> (r: Result<String, TranspileError>)
        ensures
            lowers_to(r, lua_expression_text(Expression::Function(*function)@)),
        decreases function,
    {
        match &*function.arms {
            Expression::Block(statements) => {
                assert(function.arms@ == ExpressionView::Block(statements_view(statements@)));
                let mut result = String::from_str("setmetatable({}, {");
                match self.lua_metamethods(statements) {
                    Ok(text) => result.append(text.as_str()),
                    Err(e) => {
                        return Err(e);
                    },
                }
                result.append("__call = function(...)\nlocal __args = {...}\n");
                match self.lua_body(statements) {
                    Ok(text) => result.append(text.as_str()),
                    Err(e) => {
                        return Err(e);
                    },
                }
                result.append("end,\n})");
                Ok(result)
            },
            _ => Err(
                TranspileError::new_pos(
                    "function literal without a block of arms",
                    function.position,
                ),
            ),
        }
    }

    /// The table entries of a function literal.
    fn lua_metamethods(&self, statements: &Vec<Statement>) -> (r: Result<String, TranspileError>)
        ensures
            lowers_to(r, lua_metamethods_text(statements_view(statements@), statements@.len())),
        decreases statements,
    {
        let ghost views = statements_view(statements@);
        let mut table = String::new();
        let mut i: usize = 0;
        while i < statements.len()
            invariant
                i <= statements.len(),
                views == statements_view(statements@),
                lua_metamethods_text(views, i as nat) == Ok::<Seq<char>, TokenPosition>(table@),
            decreases statements.len() - i,
        {
            assert(decreases_to!(statements => statements[i as int]));
            assert(views[i as int] == statements[i as int]@);
            match self.lua_metamethod(&statements[i]) {
                Ok(text) => {
                    table.append(text.as_str());
                },
                Err(e) => {
                    proof {
                        lemma_metamethods_failure_stays(views, (i + 1) as nat, views.len());
                    }
                    return Err(e);
                },
            }
            i += 1;
        }
        Ok(table)
    }

    /// The lines of the call handler of a function literal.
    fn lua_body(&self, statements: &Vec<Statement>) -> (r: Result<String, TranspileError>)
        ensures
            lowers_to(r, lua_body_text(statements_view(statements@), statements@.len())),
        decreases statements,
    {
        let ghost views = statements_view(statements@);
        let mut body = String::new();
        let mut i: usize = 0;
        while i < statements.len()
            invariant
                i <= statements.len(),
                views == statements_view(statements@),
                lua_body_text(views, i as nat) == Ok::<Seq<char>, TokenPosition>(body@),
            decreases statements.len() - i,
        {
            assert(decreases_to!(statements => statements[i as int]));
            assert(views[i as int] == statements[i as int]@);
            let last = i + 1 == statements.len();
            let value = match &statements[i] {
                Statement::Expression(e) => match &**e {
                    Expression::Arm(_) => false,
                    _ => true,
                },
                _ => false,
            };
            assert((last && value) == returns_value(views, i as int));
            if last && value {
                body.append("return ");
            } else {
                assert(body@ + Seq::<char>::empty() =~= body@);
            }
            match self.lua_statement(&statements[i]) {
                Ok(text) => {
                    body.append(text.as_str());
                },
                Err(e) => {
                    proof {
                        lemma_body_failure_stays(views, (i + 1) as nat, views.len());
                    }
                    return Err(e);
                },
            }
            body.append("\n");
            i += 1;
        }
        Ok(body)
    }

    /// The entry of a function literal's table for one of its statements.
    fn lua_metamethod(&self, statement: &Statement) -> (r: Result<String, TranspileError>)
        ensures
            lowers_to(r, lua_metamethod_text(statement@)),
        decreases statement,
    {
        match statement {
            Statement::Expression(e) => match &**e {
                Expression::Arm(arm) => {
                    let ghost params = expressions_view(arm.params@);
                    assert(e@ == Expression::Arm(*arm)@);
                    assert(params.len() == arm.params.len());
                    if arm.params.len() >= 2 {
                        assert(params[0] == arm.params[0]@);
                        assert(params[1] == arm.params[1]@);
                        match &arm.params[0] {
                            Expression::Operand(op) => {
                                let mut result = lua_operand(*op);
                                result.append(" = function(_, ");
                                assert(decreases_to!(arm.params => arm.params[1]));
                                match self.lua_expression(&arm.params[1]) {
                                    Ok(text) => result.append(text.as_str()),
                                    Err(e) => {
                                        return Err(e);
                                    },
                                }
                                result.append(")\n");
                                match &*arm.body {
                                    Statement::Expression(_) => match self.lua_result(&arm.body) {
                                        Ok(text) => result.append(text.as_str()),
                                        Err(e) => {
                                            return Err(e);
                                        },
                                    },
                                    _ => match self.lua_statement(&arm.body) {
                                        Ok(text) => result.append(text.as_str()),
                                        Err(e) => {
                                            return Err(e);
                                        },
                                    },
                                }
                                result.append("end,\n");
                                Ok(result)
                            },
                            _ => {
                                assert(!(params[0] is Operand));
                                Ok(String::new())
                            },
                        }
                    } else {
                        Ok(String::new())
                    }
                },
                _ => {
                    assert(!(e@ is Arm));
                    Ok(String::new())
                },
            },
            _ => Ok(String::new()),
        }
    }

    /// The line that hands back the value of a body that is an expression.
    fn lua_result(&self, body: &Statement) -> (r: Result<String, TranspileError>)
        ensures
            lowers_to(r, lua_result_text(body@)),
        decreases body,
    {
        match body {
            Statement::Expression(value) => {
                let mut result = String::from_str("return ");
                match self.lua_expression(value) {
                    Ok(text) => result.append(text.as_str()),
                    Err(e) => {
                        return Err(e);
                    },
                }
                result.append("\n");
                Ok(result)
            },
            _ => Ok(String::new()),
        }
    }

    /// The target text of an arm: a branch that is taken when the number of
    /// arguments is the number of parameters. Each name among the
    /// parameters is bound to the argument in its place; each pattern must
    /// equal the argument in its place for the body to run.
    fn lua_arm(&self, arm: &Arm) -> (r: Result<String, TranspileError>)
        ensures
            lowers_to(r, lua_expression_text(Expression::Arm(*arm)@)),
        decreases arm,
    {
        let ghost params = expressions_view(arm.params@);
        let mut result = String::from_str("if ");
        result.append(decimal_text(arm.params.len() as u128 + 1).as_str());
        result.append(" == #__args then\n");
        result.append(lua_bindings(&arm.params).as_str());
        let (guards, count) = match self.lua_guards(&arm.params) {
            Ok(found) => found,
            Err(e) => {
                proof {
                    lemma_failed_guards_have_pattern(params, params.len());
                }
                return Err(e);
            },
        };
        if count == 0 {
            match self.lua_result(&arm.body) {
                Ok(text) => result.append(text.as_str()),
                Err(e) => {
                    return Err(e);
                },
            }
        } else {
            let mut guarded = guards;
            let value = match &*arm.body {
                Statement::Expression(e) => match &**e {
                    Expression::Block(_) => false,
                    _ => true,
                },
                _ => false,
            };
            if value {
                guarded.append("return ");
            } else {
                assert(guarded@ + Seq::<char>::empty() =~= guarded@);
            }
            match self.lua_statement(&arm.body) {
                Ok(text) => guarded.append(text.as_str()),
                Err(e) => {
                    return Err(e);
                },
            }
            let mut closers = String::from_str("\n");
            closers.append(lua_closers(count).as_str());
            guarded.append(closers.as_str());
            result.append(guarded.as_str());
        }
        result.append("end\n");
        Ok(result)
    }

    /// The lines that open a guard for each pattern among the parameters,
    /// and the number of those patterns.
    fn lua_guards(&self, parameters: &Vec<Expression>) -> (r: Result<
        (String, usize),
        TranspileError,
    >)
        ensures
            match r {
                Ok((text, count)) => lua_guards_text(
                    expressions_view(parameters@),
                    parameters@.len(),
                ) == Ok::<Seq<char>, TokenPosition>(text@) && count == pattern_count(
                    expressions_view(parameters@),
                    parameters@.len(),
                ),
                Err(e) => lowers_to(
                    Err(e),
                    lua_guards_text(expressions_view(parameters@), parameters@.len()),
                ),
            },
        decreases parameters,
    {
        let ghost params = expressions_view(parameters@);
        let mut guards = String::new();
        let mut count: usize = 0;
        let mut i: usize = 0;
        while i < parameters.len()
            invariant
                i <= parameters.len(),
                count <= i,
                params == expressions_view(parameters@),
                count == pattern_count(params, i as nat),
                lua_guards_text(params, i as nat) == Ok::<Seq<char>, TokenPosition>(guards@),
            decreases parameters.len() - i,
        {
            assert(params[i as int] == parameters[i as int]@);
            match &parameters[i] {
                Expression::Number(_)
                | Expression::Bool(_)
                | Expression::Char(_)
                | Expression::Operation(_)
                | Expression::Str(_) => {
                    guards.append("if ");
                    assert(decreases_to!(parameters => parameters[i as int]));
                    match self.lua_expression(&parameters[i]) {
                        Ok(text) => guards.append(text.as_str()),
                        Err(e) => {
                            proof {
                                lemma_guards_failure_stays(params, (i + 1) as nat, params.len());
                            }
                            return Err(e);
                        },
                    }
                    let mut tail = String::from_str(" == ");
                    tail.append(lua_argument_slot(i).as_str());
                    tail.append(" then\n");
                    guards.append(tail.as_str());
                    count += 1;
                },
                _ => {},
            }
            i += 1;
        }
        Ok((guards, count))
    }
}

/// The declarations that bind the names among the parameters of an arm.
fn lua_bindings(parameters: &Vec<Expression>) -> (s: String)
    ensures
        s@ == lua_bindings_text(expressions_view(parameters@), parameters@.len()),
{
    let ghost params = expressions_view(parameters@);
    let mut bindings = String::new();
    let mut i: usize = 0;
    while i < parameters.len()
        invariant
            i <= parameters.len(),
            params == expressions_view(parameters@),
            bindings@ == lua_bindings_text(params, i as nat),
        decreases parameters.len() - i,
    {
        assert(params[i as int] == parameters[i as int]@);
        let mut line = String::new();
        match &parameters[i] {
            Expression::Identifier(id, _) => {
                if Operand::from_str(id.as_str()).is_none() {
                    line.append("local ");
                    line.append(lua_identifier(id.as_str()).as_str());
                    line.append(" = ");
                    line.append(lua_argument_slot(i).as_str());
                    line.append("\n");
                    assert(line@ =~= "local "@ + lua_name(id@) + " = "@ + argument_slot(i as nat)
                        + "\n"@);
                }
            },
            _ => {},
        }
        bindings.append(line.as_str());
        i += 1;
    }
    bindings
}

/// `count` times the line that closes a guard.
fn lua_closers(count: usize) -> (s: String)
    ensures
        s@ == lua_closers_text(count as nat),
{
    let mut ends = String::new();
    let mut k: usize = 0;
    while k < count
        invariant
            k <= count,
            ends@ == lua_closers_text(k as nat),
        decreases count - k,
    {
        ends.append("end\n");
        k += 1;
    }
    ends
}

/// The value that stands for an operator used as a pattern.
fn lua_operand(op: Operand) -> (s: String)
    ensures
        s@ == lua_operand_text(op),
{
    match op {
        Operand::Add => String::from_str("__add"),
        _ => String::new(),
    }
}

} // verus!
