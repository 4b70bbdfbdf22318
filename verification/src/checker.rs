//! The checker: every name that a program uses must be bound where it is
//! used.

use vstd::prelude::*;
use crate::ast::{
    expressions_view, statements_view, Arm, Expression, ExpressionView, Statement, StatementView,
};
use crate::error::CheckError;
use crate::scoping::{lemma_check_succeeds_iff_resolved, names_of, resolved_statements};
use crate::symtab::{declare, prepopulated, visible, Level, SymTab};
use crate::token::TokenPosition;

verus! {

/// What checking gives: the position of the first name that is used
/// without a binding, if there is one, and the chain of scopes afterwards.
pub struct Checked {
    pub failure: Option<TokenPosition>,
    pub scope: Seq<Level>,
}

/// Nothing was found wrong, and the scopes are `scope`.
pub open spec fn passed(scope: Seq<Level>) -> Checked {
    Checked { failure: None, scope }
}

/// The message of the check error.
pub open spec fn undeclared_message() -> Seq<char> {
    "undeclared use"@
}

/// The names among the first `n` parameters of an arm, in order. A
/// parameter that is no name binds nothing.
pub open spec fn parameter_names(params: Seq<ExpressionView>, n: nat) -> Seq<Seq<char>>
    decreases n,
{
    if n == 0 || n > params.len() {
        Seq::empty()
    } else {
        match params[n - 1] {
            ExpressionView::Identifier(name, _) => parameter_names(params, (n - 1) as nat).push(
                name,
            ),
            _ => parameter_names(params, (n - 1) as nat),
        }
    }
}

/// The scopes in which the body of an arm is checked: a new scope that
/// holds the names among `params`, within `scope`.
pub open spec fn arm_scope(params: Seq<ExpressionView>, scope: Seq<Level>) -> Seq<Level> {
    let names = parameter_names(params, params.len());
    seq![prepopulated(names, names.len())] + scope
}

/// `scope` with `name` declared in its first scope.
pub open spec fn declared_in(scope: Seq<Level>, name: Seq<char>) -> Seq<Level> {
    scope.update(0, declare(scope[0], name))
}

/// Checks an expression within `scope`, part by part. A name must be
/// visible. The parts of an operation, of an index, of a call and of a
/// block are checked in order, each in the scopes that the one before left.
/// A function literal is checked as what it stands over. The body of an
/// arm is checked in a scope of its own that holds the names among the
/// parameters of the arm and is dropped afterwards; the parameters
/// themselves are not looked at. A literal and an operator pass.
pub open spec fn checked_expression(e: ExpressionView, scope: Seq<Level>) -> Checked
    decreases e, 0nat,
{
    match e {
        ExpressionView::Block(statements) => checked_statements(
            statements,
            statements.len(),
            scope,
        ),
        ExpressionView::Identifier(name, position) => if visible(scope, name) {
            passed(scope)
        } else {
            Checked { failure: Some(position), scope }
        },
        ExpressionView::Operation { left, op, right, position } => {
            let first = checked_expression(*left, scope);
            if first.failure is Some {
                first
            } else {
                checked_expression(*right, first.scope)
            }
        },
        ExpressionView::Index { id, index, position } => {
            let first = checked_expression(*id, scope);
            if first.failure is Some {
                first
            } else {
                checked_expression(*index, first.scope)
            }
        },
        ExpressionView::Function { arms, position } => checked_expression(*arms, scope),
        ExpressionView::Arm { params, body, position } => Checked {
            failure: checked_statement(*body, arm_scope(params, scope)).failure,
            scope,
        },
        ExpressionView::Call { callee, args, position } => {
            let first = checked_expression(*callee, scope);
            if first.failure is Some {
                first
            } else {
                checked_arguments(args, args.len(), first.scope)
            }
        },
        _ => passed(scope),
    }
}

/// Checks a statement within `scope`. An assignment to a name declares the
/// name in the first scope and then checks the right side, so that the
/// right side may use the name. An assignment to anything else passes.
pub open spec fn checked_statement(s: StatementView, scope: Seq<Level>) -> Checked
    decreases s, 0nat,
{
    match s {
        StatementView::Expression(e) => checked_expression(*e, scope),
        StatementView::Assignment { left, right, position } => match *left {
            ExpressionView::Identifier(name, _) => checked_expression(
                *right,
                declared_in(scope, name),
            ),
            _ => passed(scope),
        },
    }
}

/// Checks the first `n` of `statements` in order, up to the first failure.
pub open spec fn checked_statements(statements: Seq<StatementView>, n: nat, scope: Seq<Level>)
    -> Checked
    decreases statements, n,
{
    if n == 0 || n > statements.len() {
        passed(scope)
    } else {
        let before = checked_statements(statements, (n - 1) as nat, scope);
        if before.failure is Some {
            before
        } else {
            checked_statement(statements[n - 1], before.scope)
        }
    }
}

/// Checks the first `n` of `args` in order, up to the first failure.
pub open spec fn checked_arguments(args: Seq<ExpressionView>, n: nat, scope: Seq<Level>)
    -> Checked
    decreases args, n,
{
    if n == 0 || n > args.len() {
        passed(scope)
    } else {
        let before = checked_arguments(args, (n - 1) as nat, scope);
        if before.failure is Some {
            before
        } else {
            checked_expression(args[n - 1], before.scope)
        }
    }
}

/// Once some statements fail, more statements change nothing.
pub proof fn lemma_statements_failure_stays(
    statements: Seq<StatementView>,
    k: nat,
    n: nat,
    scope: Seq<Level>,
)
    requires
        k <= n <= statements.len(),
        checked_statements(statements, k, scope).failure is Some,
    ensures
        checked_statements(statements, n, scope) == checked_statements(statements, k, scope),
    decreases n - k,
{
    if k < n {
        lemma_statements_failure_stays(statements, k, (n - 1) as nat, scope);
    }
}

/// Once some arguments fail, more arguments change nothing.
pub proof fn lemma_arguments_failure_stays(
    args: Seq<ExpressionView>,
    k: nat,
    n: nat,
    scope: Seq<Level>,
)
    requires
        k <= n <= args.len(),
        checked_arguments(args, k, scope).failure is Some,
    ensures
        checked_arguments(args, n, scope) == checked_arguments(args, k, scope),
    decreases n - k,
{
    if k < n {
        lemma_arguments_failure_stays(args, k, (n - 1) as nat, scope);
    }
}

/// Whether a result of the checker, with the scopes `scope` afterwards, is
/// what checking gives.
pub open spec fn checks_as(r: Result<(), CheckError>, scope: Seq<Level>, model: Checked) -> bool {
    &&& model.scope == scope
    &&& match r {
        Ok(_) => model.failure is None,
        Err(e) => model.failure is Some && e.position == model.failure && e.message()
            == undeclared_message(),
    }
}

/// The checker for one program.
pub struct Checker {
    pub ast: Vec<Statement>,
}

impl Checker {
    pub fn new(ast: Vec<Statement>) -> (c: Checker)
        ensures
            c.ast == ast,
    {
        Checker { ast }
    }

    /// Checks the program within `sym`, which the assignments of the
    /// program fill. Succeeds exactly when every name that is used is bound
    /// where it is used; fails at the first that is not, with its position.
    pub fn check(&self, sym: &mut SymTab) -> (r: Result<(), CheckError>)
        ensures
            checks_as(
                r,
                final(sym).chain(),
                checked_statements(
                    statements_view(self.ast@),
                    self.ast@.len(),
                    old(sym).chain(),
                ),
            ),
            r is Ok <==> resolved_statements(
                statements_view(self.ast@),
                self.ast@.len(),
                names_of(old(sym).chain()),
            ).unbound is None,
            r matches Err(e) ==> e.position == resolved_statements(
                statements_view(self.ast@),
                self.ast@.len(),
                names_of(old(sym).chain()),
            ).unbound,
            old(sym).wf() ==> final(sym).wf(),
    {
        proof {
            lemma_check_succeeds_iff_resolved(statements_view(self.ast@), sym.chain());
        }
        self.check_statements(sym, &self.ast)
    }

    /// Checks `statements` in order.
    fn check_statements(&self, sym: &mut SymTab, statements: &Vec<Statement>) -> (r: Result<
        (),
        CheckError,
    >)
        ensures
            checks_as(
                r,
                final(sym).chain(),
                checked_statements(
                    statements_view(statements@),
                    statements@.len(),
                    old(sym).chain(),
                ),
            ),
            old(sym).wf() ==> final(sym).wf(),
        decreases statements,
    {
        let ghost views = statements_view(statements@);
        let mut i: usize = 0;
        while i < statements.len()
            invariant
                i <= statements.len(),
                views == statements_view(statements@),
                checked_statements(views, i as nat, old(sym).chain()) == passed(sym.chain()),
                old(sym).wf() ==> sym.wf(),
            decreases statements.len() - i,
        {
            assert(decreases_to!(statements => statements[i as int]));
            assert(views[i as int] == statements[i as int]@);
            match self.check_statement(sym, &statements[i]) {
                Ok(_) => {},
                Err(e) => {
                    proof {
                        lemma_statements_failure_stays(
                            views,
                            (i + 1) as nat,
                            views.len(),
                            old(sym).chain(),
                        );
                    }
                    return Err(e);
                },
            }
            i += 1;
        }
        Ok(())
    }

    /// Checks `arguments` in order.
    fn check_arguments(&self, sym: &mut SymTab, arguments: &Vec<Expression>) -> (r: Result<
        (),
        CheckError,
    >)
        ensures
            checks_as(
                r,
                final(sym).chain(),
                checked_arguments(
                    expressions_view(arguments@),
                    arguments@.len(),
                    old(sym).chain(),
                ),
            ),
            old(sym).wf() ==> final(sym).wf(),
        decreases arguments,
    {
        let ghost views = expressions_view(arguments@);
        let mut i: usize = 0;
        while i < arguments.len()
            invariant
                i <= arguments.len(),
                views == expressions_view(arguments@),
                checked_arguments(views, i as nat, old(sym).chain()) == passed(sym.chain()),
                old(sym).wf() ==> sym.wf(),
            decreases arguments.len() - i,
        {
            assert(decreases_to!(arguments => arguments[i as int]));
            assert(views[i as int] == arguments[i as int]@);
            match self.check_expression(sym, &arguments[i]) {
                Ok(_) => {},
                Err(e) => {
                    proof {
                        lemma_arguments_failure_stays(
                            views,
                            (i + 1) as nat,
                            views.len(),
                            old(sym).chain(),
                        );
                    }
                    return Err(e);
                },
            }
            i += 1;
        }
        Ok(())
    }

    /// Checks the body of an arm in a scope of its own within `sym`.
    fn check_arm(&self, sym: &mut SymTab, arm: &Arm) -> (r: Result<(), CheckError>)
        ensures
            checks_as(
                r,
                final(sym).chain(),
                checked_expression(Expression::Arm(*arm)@, old(sym).chain()),
            ),
            *final(sym) == *old(sym),
        decreases arm, 0nat,
    {
        let param_names = parameter_list(&arm.params);
        let mut local_sym = SymTab::new(sym.duplicate(), &param_names);
        match self.check_statement(&mut local_sym, &arm.body) {
            Ok(_) => Ok(()),
            Err(e) => Err(e),
        }
    }

    /// Checks an expression within `sym`.
    pub fn check_expression(&self, sym: &mut SymTab, expression: &Expression) -> (r: Result<
        (),
        CheckError,
    >)
        ensures
            checks_as(r, final(sym).chain(), checked_expression(expression@, old(sym).chain())),
            old(sym).wf() ==> final(sym).wf(),
        decreases expression, 0nat,
    {
        match expression {
            Expression::Block(statements) => self.check_statements(sym, statements),
            Expression::Identifier(id, position) => match sym.get_name(id.as_str()) {
                None => Err(CheckError::new_pos("undeclared use", *position)),
                Some(_) => Ok(()),
            },
            Expression::Operation(operation) => {
                match self.check_expression(sym, &operation.left) {
                    Ok(_) => {},
                    Err(e) => {
                        return Err(e);
                    },
                }
                self.check_expression(sym, &operation.right)
            },
            Expression::Index(index) => {
                match self.check_expression(sym, &index.id) {
                    Ok(_) => {},
                    Err(e) => {
                        return Err(e);
                    },
                }
                self.check_expression(sym, &index.index)
            },
            Expression::Function(function) => self.check_expression(sym, &function.arms),
            Expression::Arm(arm) => self.check_arm(sym, arm),
            Expression::Call(call) => {
                match self.check_expression(sym, &call.callee) {
                    Ok(_) => {},
                    Err(e) => {
                        return Err(e);
                    },
                }
                self.check_arguments(sym, &call.args)
            },
            _ => Ok(()),
        }
    }

    /// Checks a statement within `sym`.
    pub fn check_statement(&self, sym: &mut SymTab, statement: &Statement) -> (r: Result<
        (),
        CheckError,
    >)
        ensures
            checks_as(r, final(sym).chain(), checked_statement(statement@, old(sym).chain())),
            old(sym).wf() ==> final(sym).wf(),
        decreases statement, 0nat,
    {
        match statement {
            Statement::Expression(expression) => self.check_expression(sym, expression),
            Statement::Assignment(assignment) => match &*assignment.left {
                Expression::Identifier(name, _) => {
                    sym.add_name(name.as_str());
                    self.check_expression(sym, &assignment.right)
                },
                _ => {
                    assert(!(assignment.left@ is Identifier));
                    Ok(())
                },
            },
        }
    }
}

/// The names among the parameters of an arm, in order.
fn parameter_list(parameters: &Vec<Expression>) -> (names: Vec<String>)
    ensures
        Seq::new(names@.len(), |i: int| names@[i]@) == parameter_names(
            expressions_view(parameters@),
            parameters@.len(),
        ),
{
    let ghost views = expressions_view(parameters@);
    let mut names: Vec<String> = Vec::new();
    assert(Seq::new(names@.len(), |i: int| names@[i]@) =~= parameter_names(views, 0));
    let mut i: usize = 0;
    while i < parameters.len()
        invariant
            i <= parameters.len(),
            views == expressions_view(parameters@),
            Seq::new(names@.len(), |i: int| names@[i]@) == parameter_names(views, i as nat),
        decreases parameters.len() - i,
    {
        assert(views[i as int] == parameters[i as int]@);
        let ghost before = Seq::new(names@.len(), |i: int| names@[i]@);
        match &parameters[i] {
            Expression::Identifier(name, _) => {
                names.push(name.clone());
                assert(Seq::new(names@.len(), |i: int| names@[i]@) =~= before.push(name@));
            },
            _ => {},
        }
        i += 1;
    }
    names
}

} // verus!
