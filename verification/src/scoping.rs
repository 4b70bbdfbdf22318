//! What the checker decides, stated over the set of names that are bound:
//! a program passes exactly when every name it uses is bound where it is
//! used.

use vstd::prelude::*;
use crate::ast::{ExpressionView, StatementView};
use crate::checker::{
    arm_scope, checked_arguments, checked_expression, checked_statement, checked_statements,
    declared_in, parameter_names, Checked,
};
use crate::token::TokenPosition;
use crate::symtab::{
    assign, declare, lemma_place, lookup, place, prepopulated, resolve, visible, Level,
};

verus! {

/// Whether `level` holds `name`.
pub open spec fn level_has(level: Level, name: Seq<char>) -> bool {
    exists|k: int| 0 <= k < level.len() && (#[trigger] level[k]).0 == name
}

/// The names that are visible within `scope`.
pub open spec fn names_of(scope: Seq<Level>) -> Set<Seq<char>> {
    Set::new(|name: Seq<char>| visible(scope, name))
}

/// A level holds a name exactly when the name is found in it.
pub proof fn lemma_lookup_has(level: Level, name: Seq<char>)
    ensures
        lookup(level, name) is Some <==> level_has(level, name),
{
    lemma_place(level, name, 0);
}

/// A name that is declared is held; the other names are held as before.
pub proof fn lemma_declare_has(level: Level, name: Seq<char>, other: Seq<char>)
    ensures
        level_has(declare(level, name), other) <==> (other == name || level_has(level, other)),
{
    lemma_place(level, name, 0);
    let after = declare(level, name);
    if place(level, name, 0) is None {
        assert(after[level.len() as int].0 == name);
        if level_has(level, other) {
            let k = choose|k: int| 0 <= k < level.len() && (#[trigger] level[k]).0 == other;
            assert(after[k].0 == other);
        }
        if level_has(after, other) {
            let k = choose|k: int| 0 <= k < after.len() && (#[trigger] after[k]).0 == other;
            if k < level.len() {
                assert(level[k].0 == other);
            }
        }
    }
}

/// A name that is given a slot is held; the other names are held as before.
pub proof fn lemma_assign_has(level: Level, name: Seq<char>, slot: nat, other: Seq<char>)
    ensures
        level_has(assign(level, name, slot), other) <==> (other == name || level_has(level, other)),
{
    lemma_place(level, name, 0);
    let after = assign(level, name, slot);
    match place(level, name, 0) {
        Some(i) => {
            assert(after[i].0 == name);
            if level_has(level, other) {
                let k = choose|k: int| 0 <= k < level.len() && (#[trigger] level[k]).0 == other;
                assert(after[k].0 == other);
            }
            if level_has(after, other) {
                let k = choose|k: int| 0 <= k < after.len() && (#[trigger] after[k]).0 == other;
                if k != i {
                    assert(level[k].0 == other);
                }
            }
        },
        None => {
            assert(after[level.len() as int].0 == name);
            if level_has(level, other) {
                let k = choose|k: int| 0 <= k < level.len() && (#[trigger] level[k]).0 == other;
                assert(after[k].0 == other);
            }
            if level_has(after, other) {
                let k = choose|k: int| 0 <= k < after.len() && (#[trigger] after[k]).0 == other;
                if k < level.len() {
                    assert(level[k].0 == other);
                }
            }
        },
    }
}

/// The scope of an arm holds exactly the names among its first `n`
/// parameter names.
pub proof fn lemma_prepopulated_has(names: Seq<Seq<char>>, n: nat, other: Seq<char>)
    requires
        n <= names.len(),
    ensures
        level_has(prepopulated(names, n), other) <==> names.take(n as int).contains(other),
    decreases n,
{
    if n == 0 {
    } else {
        lemma_prepopulated_has(names, (n - 1) as nat, other);
        lemma_assign_has(prepopulated(names, (n - 1) as nat), names[n - 1], (n - 1) as nat, other);
        let shorter = names.take(n - 1);
        let longer = names.take(n as int);
        assert(longer[n - 1] == names[n - 1]);
        if shorter.contains(other) {
            let k = choose|k: int| 0 <= k < shorter.len() && shorter[k] == other;
            assert(longer[k] == other);
        }
        if longer.contains(other) {
            let k = choose|k: int| 0 <= k < longer.len() && longer[k] == other;
            if k < n - 1 {
                assert(shorter[k] == other);
            }
        }
    }
}

/// A name is found from `depth` on exactly when the scope at `depth` holds
/// it or it is found from the next scope on.
pub proof fn lemma_resolve_step(scope: Seq<Level>, name: Seq<char>, depth: int)
    requires
        0 <= depth < scope.len(),
    ensures
        resolve(scope, name, depth) is Some <==> (level_has(scope[depth], name) || resolve(
            scope,
            name,
            depth + 1,
        ) is Some),
{
    lemma_lookup_has(scope[depth], name);
}

/// Scopes that agree from `depth` on find the same names from there on.
pub proof fn lemma_resolve_agrees(a: Seq<Level>, b: Seq<Level>, name: Seq<char>, depth: int)
    requires
        0 <= depth,
        a.len() == b.len(),
        forall|d: int| depth <= d < a.len() ==> a[d] == b[d],
    ensures
        resolve(a, name, depth) == resolve(b, name, depth),
    decreases a.len() - depth,
{
    if depth < a.len() {
        lemma_resolve_agrees(a, b, name, depth + 1);
    }
}

/// A scope in front moves every other scope one step outward.
pub proof fn lemma_resolve_shifted(front: Level, scope: Seq<Level>, name: Seq<char>, depth: int)
    requires
        0 <= depth,
    ensures
        resolve(seq![front] + scope, name, depth + 1) is Some <==> resolve(scope, name, depth)
            is Some,
    decreases scope.len() - depth,
{
    let longer = seq![front] + scope;
    if depth < scope.len() {
        assert(longer[depth + 1] == scope[depth]);
        lemma_resolve_shifted(front, scope, name, depth + 1);
    }
}

/// After a name is declared, it is visible, and so is what was visible.
pub proof fn lemma_names_of_declared(scope: Seq<Level>, name: Seq<char>)
    requires
        scope.len() > 0,
    ensures
        names_of(declared_in(scope, name)) == names_of(scope).insert(name),
{
    let after = declared_in(scope, name);
    assert forall|other: Seq<char>| names_of(after).contains(other) <==> names_of(scope).insert(
        name,
    ).contains(other) by {
        lemma_resolve_step(scope, other, 0);
        lemma_resolve_step(after, other, 0);
        lemma_resolve_agrees(scope, after, other, 1);
        lemma_declare_has(scope[0], name, other);
    }
    assert(names_of(after) =~= names_of(scope).insert(name));
}

/// The names that the parameters of an arm bind.
pub open spec fn parameter_set(params: Seq<ExpressionView>) -> Set<Seq<char>> {
    Set::new(|name: Seq<char>| parameter_names(params, params.len()).contains(name))
}

/// Within an arm, its parameter names are visible, and so is what is
/// visible around it.
pub proof fn lemma_names_of_arm(params: Seq<ExpressionView>, scope: Seq<Level>)
    ensures
        names_of(arm_scope(params, scope)) == names_of(scope).union(parameter_set(params)),
{
    let names = parameter_names(params, params.len());
    let front = prepopulated(names, names.len());
    let inner = arm_scope(params, scope);
    assert forall|other: Seq<char>| names_of(inner).contains(other) <==> names_of(scope).union(
        parameter_set(params),
    ).contains(other) by {
        lemma_resolve_step(inner, other, 0);
        lemma_resolve_shifted(front, scope, other, 0);
        lemma_prepopulated_has(names, names.len(), other);
        assert(names.take(names.len() as int) == names);
    }
    assert(names_of(inner) =~= names_of(scope).union(parameter_set(params)));
}

/// The position of the first name that is used without being bound, if
/// there is one, and the names that are bound afterwards.
pub struct Resolved {
    pub unbound: Option<TokenPosition>,
    pub bound: Set<Seq<char>>,
}

/// The first name that an expression uses without its being bound where
/// it is used, given the names `bound` before the expression; the parts
/// of the expression are taken in the order in which they are written.
///
/// A name is bound by an assignment to it, from the right side of that
/// assignment on, and within the body of an arm by the names among the
/// parameters of the arm. The parameters of an arm use no name: a name
/// among them binds, and anything else is a pattern.
pub open spec fn resolved_expression(e: ExpressionView, bound: Set<Seq<char>>) -> Resolved
    decreases e, 0nat,
{
    match e {
        ExpressionView::Identifier(name, position) => Resolved {
            unbound: if bound.contains(name) {
                None
            } else {
                Some(position)
            },
            bound,
        },
        ExpressionView::Block(statements) => resolved_statements(
            statements,
            statements.len(),
            bound,
        ),
        ExpressionView::Operation { left, op, right, position } => {
            let first = resolved_expression(*left, bound);
            if first.unbound is Some {
                first
            } else {
                resolved_expression(*right, first.bound)
            }
        },
        ExpressionView::Call { callee, args, position } => {
            let first = resolved_expression(*callee, bound);
            if first.unbound is Some {
                first
            } else {
                resolved_arguments(args, args.len(), first.bound)
            }
        },
        ExpressionView::Index { id, index, position } => {
            let first = resolved_expression(*id, bound);
            if first.unbound is Some {
                first
            } else {
                resolved_expression(*index, first.bound)
            }
        },
        ExpressionView::Function { arms, position } => resolved_expression(*arms, bound),
        ExpressionView::Arm { params, body, position } => Resolved {
            unbound: resolved_statement(*body, bound.union(parameter_set(params))).unbound,
            bound,
        },
        _ => Resolved { unbound: None, bound },
    }
}

/// The first name that a statement uses without its being bound where it
/// is used. An assignment to a name binds the name for its own right side
/// and for what follows. An assignment to anything else is not looked at.
pub open spec fn resolved_statement(s: StatementView, bound: Set<Seq<char>>) -> Resolved
    decreases s, 0nat,
{
    match s {
        StatementView::Expression(e) => resolved_expression(*e, bound),
        StatementView::Assignment { left, right, position } => match *left {
            ExpressionView::Identifier(name, _) => resolved_expression(*right, bound.insert(name)),
            _ => Resolved { unbound: None, bound },
        },
    }
}

/// The first name that the first `n` of `statements` use without its being
/// bound where it is used.
pub open spec fn resolved_statements(
    statements: Seq<StatementView>,
    n: nat,
    bound: Set<Seq<char>>,
) -> Resolved
    decreases statements, n,
{
    if n == 0 || n > statements.len() {
        Resolved { unbound: None, bound }
    } else {
        let before = resolved_statements(statements, (n - 1) as nat, bound);
        if before.unbound is Some {
            before
        } else {
            resolved_statement(statements[n - 1], before.bound)
        }
    }
}

/// The first name that the first `n` of `args` use without its being bound
/// where it is used.
pub open spec fn resolved_arguments(args: Seq<ExpressionView>, n: nat, bound: Set<Seq<char>>)
    -> Resolved
    decreases args, n,
{
    if n == 0 || n > args.len() {
        Resolved { unbound: None, bound }
    } else {
        let before = resolved_arguments(args, (n - 1) as nat, bound);
        if before.unbound is Some {
            before
        } else {
            resolved_expression(args[n - 1], before.bound)
        }
    }
}

/// Whether what the checker gives within `scope` is what the names that are
/// bound say: it fails at the first name that is used without being bound,
/// and where there is none, the names that are visible afterwards are the
/// names that are bound.
pub open spec fn agrees(c: Checked, r: Resolved, scope: Seq<Level>) -> bool {
    &&& c.scope.len() == scope.len()
    &&& c.failure == r.unbound
    &&& (r.unbound is None ==> names_of(c.scope) == r.bound)
}

/// Checking an expression fails at the first name that the expression uses
/// without its being bound where it is used, and succeeds where there is
/// none.
pub proof fn lemma_checked_expression(e: ExpressionView, scope: Seq<Level>)
    requires
        scope.len() > 0,
    ensures
        agrees(checked_expression(e, scope), resolved_expression(e, names_of(scope)), scope),
    decreases e, 0nat,
{
    match e {
        ExpressionView::Block(statements) => {
            lemma_checked_statements(statements, statements.len(), scope);
        },
        ExpressionView::Operation { left, op, right, position } => {
            lemma_checked_expression(*left, scope);
            let first = checked_expression(*left, scope);
            if first.failure is None {
                lemma_checked_expression(*right, first.scope);
            }
        },
        ExpressionView::Index { id, index, position } => {
            lemma_checked_expression(*id, scope);
            let first = checked_expression(*id, scope);
            if first.failure is None {
                lemma_checked_expression(*index, first.scope);
            }
        },
        ExpressionView::Call { callee, args, position } => {
            lemma_checked_expression(*callee, scope);
            let first = checked_expression(*callee, scope);
            if first.failure is None {
                lemma_checked_arguments(args, args.len(), first.scope);
            }
        },
        ExpressionView::Function { arms, position } => {
            lemma_checked_expression(*arms, scope);
        },
        ExpressionView::Arm { params, body, position } => {
            lemma_names_of_arm(params, scope);
            lemma_checked_statement(*body, arm_scope(params, scope));
        },
        _ => {},
    }
}

/// Checking a statement fails at the first name that the statement uses
/// without its being bound where it is used, and succeeds where there is
/// none.
pub proof fn lemma_checked_statement(s: StatementView, scope: Seq<Level>)
    requires
        scope.len() > 0,
    ensures
        agrees(checked_statement(s, scope), resolved_statement(s, names_of(scope)), scope),
    decreases s, 0nat,
{
    match s {
        StatementView::Expression(e) => {
            lemma_checked_expression(*e, scope);
        },
        StatementView::Assignment { left, right, position } => {
            match *left {
                ExpressionView::Identifier(name, _) => {
                    lemma_names_of_declared(scope, name);
                    lemma_checked_expression(*right, declared_in(scope, name));
                },
                _ => {},
            }
        },
    }
}

/// Checking statements in order fails at the first name that they use
/// without its being bound where it is used, and succeeds where there is
/// none.
pub proof fn lemma_checked_statements(statements: Seq<StatementView>, n: nat, scope: Seq<Level>)
    requires
        scope.len() > 0,
        n <= statements.len(),
    ensures
        agrees(
            checked_statements(statements, n, scope),
            resolved_statements(statements, n, names_of(scope)),
            scope,
        ),
    decreases statements, n,
{
    if n > 0 {
        lemma_checked_statements(statements, (n - 1) as nat, scope);
        let before = checked_statements(statements, (n - 1) as nat, scope);
        if before.failure is None {
            lemma_checked_statement(statements[n - 1], before.scope);
        }
    }
}

/// Checking arguments in order fails at the first name that they use
/// without its being bound where it is used, and succeeds where there is
/// none.
pub proof fn lemma_checked_arguments(args: Seq<ExpressionView>, n: nat, scope: Seq<Level>)
    requires
        scope.len() > 0,
        n <= args.len(),
    ensures
        agrees(
            checked_arguments(args, n, scope),
            resolved_arguments(args, n, names_of(scope)),
            scope,
        ),
    decreases args, n,
{
    if n > 0 {
        lemma_checked_arguments(args, (n - 1) as nat, scope);
        let before = checked_arguments(args, (n - 1) as nat, scope);
        if before.failure is None {
            lemma_checked_expression(args[n - 1], before.scope);
        }
    }
}

/// Checking a program succeeds exactly when every name that the program
/// uses is bound where it is used: by an assignment that comes before the
/// use or holds it, or by a name among the parameters of an arm that holds
/// it. Where one is not, checking fails at the first such name. This holds
/// of every program and every chain of scopes.
pub proof fn lemma_check_succeeds_iff_resolved(program: Seq<StatementView>, scope: Seq<Level>)
    requires
        scope.len() > 0,
    ensures
        checked_statements(program, program.len(), scope).failure == resolved_statements(
            program,
            program.len(),
            names_of(scope),
        ).unbound,
        checked_statements(program, program.len(), scope).failure is None <==> resolved_statements(
            program,
            program.len(),
            names_of(scope),
        ).unbound is None,
{
    lemma_checked_statements(program, program.len(), scope);
}

/// A name that is assigned is bound on the right side of its own
/// assignment: an assignment of a name to itself passes, in any scopes.
pub proof fn lemma_assigned_name_is_bound(
    name: Seq<char>,
    left: TokenPosition,
    right: TokenPosition,
    position: TokenPosition,
    scope: Seq<Level>,
)
    requires
        scope.len() > 0,
    ensures
        checked_statement(
            StatementView::Assignment {
                left: Box::new(ExpressionView::Identifier(name, left)),
                right: Box::new(ExpressionView::Identifier(name, right)),
                position,
            },
            scope,
        ).failure is None,
{
    lemma_names_of_declared(scope, name);
    assert(names_of(declared_in(scope, name)).contains(name));
}

/// A name that is visible nowhere fails the check at its own position.
pub proof fn lemma_unbound_name_fails(name: Seq<char>, position: TokenPosition, scope: Seq<Level>)
    requires
        !visible(scope, name),
    ensures
        checked_expression(ExpressionView::Identifier(name, position), scope).failure == Some(
            position,
        ),
{
}

} // verus!
