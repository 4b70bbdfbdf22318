//! The syntax tree, and the tree as a mathematical value.

use vstd::prelude::*;
use crate::token::TokenPosition;
use crate::text::str_equal;

verus! {

/// A binary operator of the source language.
#[derive(Debug, Copy, Clone, PartialEq, Eq, Structural)]
pub enum Operand {
    Pow,
    Mul,
    Div,
    Mod,
    Add,
    Sub,
    Equal,
    NEqual,
    Lt,
    Gt,
    LtEqual,
    GtEqual,
    Concat,
    Combine,
    PipeLeft,
    PipeRight,
}

impl Operand {
    /// The operator that a lexeme stands for, with its precedence: a lower
    /// number binds tighter.
    pub open spec fn parse(text: Seq<char>) -> Option<(Operand, u8)> {
        if text == "^"@ {
            Some((Operand::Pow, 0u8))
        } else if text == "*"@ {
            Some((Operand::Mul, 1u8))
        } else if text == "/"@ {
            Some((Operand::Div, 1u8))
        } else if text == "%"@ {
            Some((Operand::Mod, 1u8))
        } else if text == "+"@ {
            Some((Operand::Add, 2u8))
        } else if text == "-"@ {
            Some((Operand::Sub, 2u8))
        } else if text == "=="@ {
            Some((Operand::Equal, 3u8))
        } else if text == "~="@ {
            Some((Operand::NEqual, 3u8))
        } else if text == "<"@ {
            Some((Operand::Lt, 4u8))
        } else if text == ">"@ {
            Some((Operand::Gt, 4u8))
        } else if text == "<="@ {
            Some((Operand::LtEqual, 4u8))
        } else if text == ">="@ {
            Some((Operand::GtEqual, 4u8))
        } else if text == "."@ {
            Some((Operand::Combine, 5u8))
        } else if text == "++"@ {
            Some((Operand::Concat, 5u8))
        } else if text == "<|"@ {
            Some((Operand::PipeLeft, 5u8))
        } else if text == "|>"@ {
            Some((Operand::PipeRight, 5u8))
        } else {
            None
        }
    }

    /// The precedence of each operator: a lower number binds tighter.
    pub open spec fn precedence(self) -> u8 {
        match self {
            Operand::Pow => 0,
            Operand::Mul | Operand::Div | Operand::Mod => 1,
            Operand::Add | Operand::Sub => 2,
            Operand::Equal | Operand::NEqual => 3,
            Operand::Lt | Operand::Gt | Operand::LtEqual | Operand::GtEqual => 4,
            Operand::Concat | Operand::Combine | Operand::PipeLeft | Operand::PipeRight => 5,
        }
    }

    /// Whether the operator is written infix in the target language.
    pub open spec fn has_target_token(self) -> bool {
        self != Operand::PipeLeft && self != Operand::PipeRight
    }

    /// The infix token of the target language that matches the operator.
    pub open spec fn target_token(self) -> Seq<char> {
        match self {
            Operand::Pow => "^"@,
            Operand::Mul => "*"@,
            Operand::Div => "/"@,
            Operand::Mod => "%"@,
            Operand::Add => "+"@,
            Operand::Sub => "-"@,
            Operand::Equal => "=="@,
            Operand::NEqual => "~="@,
            Operand::Lt => "<"@,
            Operand::Gt => ">"@,
            Operand::LtEqual => "<="@,
            Operand::GtEqual => ">="@,
            _ => ".."@,
        }
    }

    /// Reads an operator lexeme. `None` for any other text.
    pub fn from_str(v: &str) -> (r: Option<(Operand, u8)>)
        ensures
            r == Operand::parse(v@),
    {
        if str_equal(v, "^") {
            Some((Operand::Pow, 0))
        } else if str_equal(v, "*") {
            Some((Operand::Mul, 1))
        } else if str_equal(v, "/") {
            Some((Operand::Div, 1))
        } else if str_equal(v, "%") {
            Some((Operand::Mod, 1))
        } else if str_equal(v, "+") {
            Some((Operand::Add, 2))
        } else if str_equal(v, "-") {
            Some((Operand::Sub, 2))
        } else if str_equal(v, "==") {
            Some((Operand::Equal, 3))
        } else if str_equal(v, "~=") {
            Some((Operand::NEqual, 3))
        } else if str_equal(v, "<") {
            Some((Operand::Lt, 4))
        } else if str_equal(v, ">") {
            Some((Operand::Gt, 4))
        } else if str_equal(v, "<=") {
            Some((Operand::LtEqual, 4))
        } else if str_equal(v, ">=") {
            Some((Operand::GtEqual, 4))
        } else if str_equal(v, ".") {
            Some((Operand::Combine, 5))
        } else if str_equal(v, "++") {
            Some((Operand::Concat, 5))
        } else if str_equal(v, "<|") {
            Some((Operand::PipeLeft, 5))
        } else if str_equal(v, "|>") {
            Some((Operand::PipeRight, 5))
        } else {
            None
        }
    }

    /// The infix token of the target language for this operator. The two
    /// pipe operators have none.
    pub fn to_string(&self) -> (s: String)
        requires
            self.has_target_token(),
        ensures
            s@ == self.target_token(),
    {
        match self {
            Operand::Pow => String::from_str("^"),
            Operand::Mul => String::from_str("*"),
            Operand::Div => String::from_str("/"),
            Operand::Mod => String::from_str("%"),
            Operand::Add => String::from_str("+"),
            Operand::Sub => String::from_str("-"),
            Operand::Equal => String::from_str("=="),
            Operand::NEqual => String::from_str("~="),
            Operand::Lt => String::from_str("<"),
            Operand::Gt => String::from_str(">"),
            Operand::LtEqual => String::from_str("<="),
            Operand::GtEqual => String::from_str(">="),
            _ => String::from_str(".."),
        }
    }

    /// Every operator lexeme is read with the precedence of its operator.
    pub proof fn lemma_parse_precedence(text: Seq<char>)
        ensures
            Operand::parse(text) matches Some((op, p)) ==> p == op.precedence(),
    {
    }
}

/// An expression of the source language. A number holds the text of its
/// literal.
#[derive(Debug)]
pub enum Expression {
    Block(Vec<Statement>),
    Number(String),
    Bool(bool),
    Str(String),
    Char(char),
    Identifier(String, TokenPosition),
    Operation(Operation),
    Call(Call),
    Index(Index),
    Function(Function),
    Arm(Arm),
    Operand(Operand),
    EOF,
}

#[derive(Debug)]
pub struct Operation {
    pub left: Box<Expression>,
    pub op: Operand,
    pub right: Box<Expression>,
    pub position: TokenPosition,
}

#[derive(Debug)]
pub struct Call {
    pub callee: Box<Expression>,
    pub args: Vec<Expression>,
    pub position: TokenPosition,
}

#[derive(Debug)]
pub struct Index {
    pub id: Box<Expression>,
    pub index: Box<Expression>,
    pub position: TokenPosition,
}

#[derive(Debug)]
pub struct Function {
    pub arms: Box<Expression>,
    pub position: TokenPosition,
}

#[derive(Debug)]
pub struct Arm {
    pub params: Vec<Expression>,
    pub body: Box<Statement>,
    pub position: TokenPosition,
}

#[derive(Debug)]
pub enum Statement {
    Expression(Box<Expression>),
    Assignment(Assignment),
}

#[derive(Debug)]
pub struct Assignment {
    pub left: Box<Expression>,
    pub right: Box<Expression>,
    pub position: TokenPosition,
}

/// An expression as a mathematical value: sequences in place of vectors and
/// strings.
pub enum ExpressionView {
    Block(Seq<StatementView>),
    Number(Seq<char>),
    Bool(bool),
    Str(Seq<char>),
    Char(char),
    Identifier(Seq<char>, TokenPosition),
    Operation {
        left: Box<ExpressionView>,
        op: Operand,
        right: Box<ExpressionView>,
        position: TokenPosition,
    },
    Call { callee: Box<ExpressionView>, args: Seq<ExpressionView>, position: TokenPosition },
    Index { id: Box<ExpressionView>, index: Box<ExpressionView>, position: TokenPosition },
    Function { arms: Box<ExpressionView>, position: TokenPosition },
    Arm { params: Seq<ExpressionView>, body: Box<StatementView>, position: TokenPosition },
    Operand(Operand),
    EOF,
}

/// A statement as a mathematical value.
pub enum StatementView {
    Expression(Box<ExpressionView>),
    Assignment { left: Box<ExpressionView>, right: Box<ExpressionView>, position: TokenPosition },
}

/// What an expression is, as a mathematical value.
pub open spec fn expression_view(e: &Expression) -> ExpressionView
    decreases e,
{
    match e {
        Expression::Block(statements) => ExpressionView::Block(statements_view(statements@)),
        Expression::Number(n) => ExpressionView::Number(n@),
        Expression::Bool(b) => ExpressionView::Bool(*b),
        Expression::Str(s) => ExpressionView::Str(s@),
        Expression::Char(c) => ExpressionView::Char(*c),
        Expression::Identifier(n, p) => ExpressionView::Identifier(n@, *p),
        Expression::Operation(o) => ExpressionView::Operation {
            left: Box::new(expression_view(&o.left)),
            op: o.op,
            right: Box::new(expression_view(&o.right)),
            position: o.position,
        },
        Expression::Call(c) => ExpressionView::Call {
            callee: Box::new(expression_view(&c.callee)),
            args: expressions_view(c.args@),
            position: c.position,
        },
        Expression::Index(x) => ExpressionView::Index {
            id: Box::new(expression_view(&x.id)),
            index: Box::new(expression_view(&x.index)),
            position: x.position,
        },
        Expression::Function(f) => ExpressionView::Function {
            arms: Box::new(expression_view(&f.arms)),
            position: f.position,
        },
        Expression::Arm(a) => ExpressionView::Arm {
            params: expressions_view(a.params@),
            body: Box::new(statement_view(&a.body)),
            position: a.position,
        },
        Expression::Operand(op) => ExpressionView::Operand(*op),
        Expression::EOF => ExpressionView::EOF,
    }
}

/// The views of a sequence of expressions, in order.
pub open spec fn expressions_view(es: Seq<Expression>) -> Seq<ExpressionView>
    decreases es,
{
    Seq::new(
        es.len(),
        |i: int|
            if 0 <= i < es.len() {
                expression_view(&es[i])
            } else {
                arbitrary()
            },
    )
}

/// The views of a sequence of statements, in order.
pub open spec fn statements_view(ss: Seq<Statement>) -> Seq<StatementView>
    decreases ss,
{
    Seq::new(
        ss.len(),
        |i: int|
            if 0 <= i < ss.len() {
                statement_view(&ss[i])
            } else {
                arbitrary()
            },
    )
}

/// What a statement is, as a mathematical value.
pub open spec fn statement_view(s: &Statement) -> StatementView
    decreases s,
{
    match s {
        Statement::Expression(e) => StatementView::Expression(Box::new(expression_view(e))),
        Statement::Assignment(a) => StatementView::Assignment {
            left: Box::new(expression_view(&a.left)),
            right: Box::new(expression_view(&a.right)),
            position: a.position,
        },
    }
}

impl View for Expression {
    type V = ExpressionView;

    open spec fn view(&self) -> ExpressionView {
        expression_view(self)
    }
}

impl View for Statement {
    type V = StatementView;

    open spec fn view(&self) -> StatementView {
        statement_view(self)
    }
}


/// A copy of a sequence of expressions.
fn duplicate_expressions(es: &Vec<Expression>) -> (r: Vec<Expression>)
    ensures
        expressions_view(r@) == expressions_view(es@),
    decreases es,
{
    let mut r: Vec<Expression> = Vec::new();
    let mut i: usize = 0;
    while i < es.len()
        invariant
            i <= es.len(),
            r@.len() == i,
            forall|k: int| 0 <= k < i ==> (#[trigger] r@[k])@ == es@[k]@,
        decreases es.len() - i,
    {
        assert(decreases_to!(es => es[i as int]));
        r.push(es[i].duplicate());
        i += 1;
    }
    assert(expressions_view(r@) =~= expressions_view(es@));
    r
}

/// A copy of a sequence of statements.
fn duplicate_statements(ss: &Vec<Statement>) -> (r: Vec<Statement>)
    ensures
        statements_view(r@) == statements_view(ss@),
    decreases ss,
{
    let mut r: Vec<Statement> = Vec::new();
    let mut i: usize = 0;
    while i < ss.len()
        invariant
            i <= ss.len(),
            r@.len() == i,
            forall|k: int| 0 <= k < i ==> (#[trigger] r@[k])@ == ss@[k]@,
        decreases ss.len() - i,
    {
        assert(decreases_to!(ss => ss[i as int]));
        r.push(ss[i].duplicate());
        i += 1;
    }
    assert(statements_view(r@) =~= statements_view(ss@));
    r
}

impl Expression {
    /// A copy of the expression.
    pub fn duplicate(&self) -> (r: Expression)
        ensures
            r@ == self@,
        decreases self,
    {
        match self {
            Expression::Block(statements) => Expression::Block(duplicate_statements(statements)),
            Expression::Number(n) => Expression::Number(n.clone()),
            Expression::Bool(b) => Expression::Bool(*b),
            Expression::Str(s) => Expression::Str(s.clone()),
            Expression::Char(c) => Expression::Char(*c),
            Expression::Identifier(n, p) => Expression::Identifier(n.clone(), *p),
            Expression::Operation(o) => Expression::Operation(
                Operation {
                    left: Box::new(o.left.duplicate()),
                    op: o.op,
                    right: Box::new(o.right.duplicate()),
                    position: o.position,
                },
            ),
            Expression::Call(c) => Expression::Call(
                Call {
                    callee: Box::new(c.callee.duplicate()),
                    args: duplicate_expressions(&c.args),
                    position: c.position,
                },
            ),
            Expression::Index(x) => Expression::Index(
                Index {
                    id: Box::new(x.id.duplicate()),
                    index: Box::new(x.index.duplicate()),
                    position: x.position,
                },
            ),
            Expression::Function(f) => Expression::Function(
                Function { arms: Box::new(f.arms.duplicate()), position: f.position },
            ),
            Expression::Arm(a) => Expression::Arm(
                Arm {
                    params: duplicate_expressions(&a.params),
                    body: Box::new(a.body.duplicate()),
                    position: a.position,
                },
            ),
            Expression::Operand(op) => Expression::Operand(*op),
            Expression::EOF => Expression::EOF,
        }
    }
}

impl Statement {
    /// A copy of the statement.
    pub fn duplicate(&self) -> (r: Statement)
        ensures
            r@ == self@,
        decreases self,
    {
        match self {
            Statement::Expression(e) => Statement::Expression(Box::new(e.duplicate())),
            Statement::Assignment(a) => Statement::Assignment(
                Assignment {
                    left: Box::new(a.left.duplicate()),
                    right: Box::new(a.right.duplicate()),
                    position: a.position,
                },
            ),
        }
    }
}

impl Clone for Expression {
    fn clone(&self) -> (r: Expression)
        ensures
            r@ == self@,
    {
        self.duplicate()
    }
}

impl Clone for Statement {
    fn clone(&self) -> (r: Statement)
        ensures
            r@ == self@,
    {
        self.duplicate()
    }
}

} // verus!
