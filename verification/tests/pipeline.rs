use golf::ast::{Expression, Operand, Statement};
use golf::checker::Checker;
use golf::compile::{compile_tokens, CompileError};
use golf::lexer::lexer;
use golf::parser::Parser;
use golf::symtab::SymTab;
use golf::token::{Token, TokenType};
use golf::transpiler::Transpiler;
use golf::traveler::Traveler;

fn lex(source: &str) -> Vec<Token> {
    lexer(source).tokens().unwrap()
}

fn parse(source: &str) -> Vec<Statement> {
    Parser::new(Traveler::new(lex(source))).parse().unwrap()
}

fn shape(e: &Expression) -> String {
    match e {
        Expression::Block(statements) => {
            let inner: Vec<String> = statements.iter().map(statement_shape).collect();
            format!("Block[{}]", inner.join("; "))
        }
        Expression::Number(n) => n.clone(),
        Expression::Bool(b) => format!("{}", b),
        Expression::Str(s) => format!("{:?}", s),
        Expression::Char(c) => format!("{:?}", c),
        Expression::Identifier(n, _) => n.clone(),
        Expression::Operation(o) => format!("{:?}({}, {})", o.op, shape(&o.left), shape(&o.right)),
        Expression::Call(c) => {
            let args: Vec<String> = c.args.iter().map(shape).collect();
            format!("Call({}; {})", shape(&c.callee), args.join(", "))
        }
        Expression::Index(i) => format!("Index({}, {})", shape(&i.id), shape(&i.index)),
        Expression::Function(f) => format!("Function({})", shape(&f.arms)),
        Expression::Arm(a) => {
            let params: Vec<String> = a.params.iter().map(shape).collect();
            format!("Arm({} => {})", params.join(", "), statement_shape(&a.body))
        }
        Expression::Operand(op) => format!("Operand({:?})", op),
        Expression::EOF => "EOF".to_string(),
    }
}

fn statement_shape(s: &Statement) -> String {
    match s {
        Statement::Expression(e) => shape(e),
        Statement::Assignment(a) => format!("{} = {}", shape(&a.left), shape(&a.right)),
    }
}

fn program_shape(source: &str) -> String {
    let shapes: Vec<String> = parse(source).iter().map(statement_shape).collect();
    shapes.join("; ")
}

fn compile(source: &str) -> String {
    let ast = parse(source);
    let checker = Checker::new(ast);
    let mut symtab = SymTab::new_global();
    checker.check(&mut symtab).unwrap();
    Transpiler::new(checker.ast).lua().unwrap()
}

#[test]
fn tighter_operator_on_the_right_binds_first() {
    assert_eq!(program_shape("a + b * c"), "Add(a, Mul(b, c))");
}

#[test]
fn tighter_operator_on_the_left_binds_first() {
    assert_eq!(program_shape("a * b + c"), "Add(Mul(a, b), c)");
}

#[test]
fn equal_precedence_folds_to_the_left() {
    assert_eq!(program_shape("a - b - c"), "Sub(Sub(a, b), c)");
}

#[test]
fn longer_chains_reduce_as_they_go() {
    assert_eq!(program_shape("a + b * c + d"), "Add(Add(a, Mul(b, c)), d)");
    assert_eq!(program_shape("a + b * c * d"), "Add(a, Mul(Mul(b, c), d))");
    assert_eq!(program_shape("a == b + c"), "Equal(a, Add(b, c))");
}

#[test]
fn every_operator_is_parsed() {
    assert_eq!(program_shape("a ^ b"), "Pow(a, b)");
    assert_eq!(program_shape("a / b % c"), "Mod(Div(a, b), c)");
    assert_eq!(program_shape("a ~= b"), "NEqual(a, b)");
    assert_eq!(program_shape("a <= b"), "LtEqual(a, b)");
    assert_eq!(program_shape("a >= b"), "GtEqual(a, b)");
    assert_eq!(program_shape("a < b"), "Lt(a, b)");
    assert_eq!(program_shape("a > b"), "Gt(a, b)");
    assert_eq!(program_shape("a ++ b"), "Concat(a, b)");
    assert_eq!(program_shape("a <| b"), "PipeLeft(a, b)");
    assert_eq!(program_shape("a |> b"), "PipeRight(a, b)");
    assert_eq!(program_shape("a . b"), "Combine(a, b)");
}

#[test]
fn juxtaposition_is_a_call() {
    assert_eq!(program_shape("f 1"), "Call(f; 1)");
    assert_eq!(program_shape("f a, b, 3"), "Call(f; a, b, 3)");
    assert_eq!(program_shape("f (a)"), "Call(f; a)");
    assert_eq!(program_shape("(f) x"), "Call(f; x)");
    assert_eq!(program_shape("f \"s\""), "Call(f; \"s\")");
}

#[test]
fn call_arguments_take_operations() {
    assert_eq!(program_shape("fib n - 1"), "Call(fib; Sub(n, 1))");
}

#[test]
fn indexing_a_name_and_a_group() {
    assert_eq!(program_shape("a[1]"), "Index(a, 1)");
    assert_eq!(program_shape("(a)[b]"), "Index(a, b)");
}

#[test]
fn literals_become_literal_nodes() {
    assert_eq!(program_shape("12.5"), "12.5");
    assert_eq!(program_shape("true"), "true");
    assert_eq!(program_shape("false"), "false");
    assert_eq!(program_shape("\"hi\""), "\"hi\"");
    assert_eq!(program_shape("'c'"), "'c'");
}

#[test]
fn statements_are_separated_by_lines() {
    assert_eq!(program_shape("a = 1\nb = a\n"), "a = 1; b = a");
    assert_eq!(program_shape("\n\na = 1\n\n\n"), "a = 1");
}

#[test]
fn empty_input_is_an_empty_program() {
    assert!(parse("").is_empty());
    assert!(parse("\n").is_empty());
}

#[test]
fn function_literal_with_arms_and_statements() {
    assert_eq!(
        program_shape("f = {\n  |0| 0\n  a = 10\n  |n, m| n\n}"),
        "f = Function(Block[Arm(0 => 0); a = 10; Arm(n, m => n)])"
    );
}

#[test]
fn fib_parses_checks_and_transpiles() {
    let source = "fib = { |0| 0 |1| 1 |n| (fib n - 1) + fib n - 2 }";
    assert_eq!(
        program_shape(source),
        "fib = Function(Block[Arm(0 => 0); Arm(1 => 1); \
         Arm(n => Add(Call(fib; Sub(n, 1)), Call(fib; Sub(n, 2))))])"
    );
    let lua = compile(source);
    assert_eq!(
        lua,
        "local fib=setmetatable({}, {__call = function(...)\nlocal __args = {...}\n\
         if 2 == #__args then\nif 0 == __args[2] then\nreturn 0\nend\nend\n\n\
         if 2 == #__args then\nif 1 == __args[2] then\nreturn 1\nend\nend\n\n\
         if 2 == #__args then\nlocal n = __args[2]\nreturn ((fib)((n-1))+(fib)((n-2)))\nend\n\n\
         end,\n})\n"
    );
}

#[test]
fn dispatch_tests_the_literal_arm_before_the_catch_all() {
    let lua = compile("fib = { |0| 0 |1| 1 |n| (fib n - 1) + fib n - 2 }");
    let first = lua.find("if 0 == __args[2] then\nreturn 0\n").unwrap();
    let second = lua.find("if 1 == __args[2] then\nreturn 1\n").unwrap();
    let third = lua.find("local n = __args[2]\nreturn ").unwrap();
    assert!(first < second && second < third);
    assert_eq!(lua.matches("if 2 == #__args then\n").count(), 3);
}

#[test]
fn composition_lowers_to_a_call_chain() {
    let lua = compile("twice = { |n| 2 * n }\nfib = { |n| n }\ntwice_fib = twice . fib\na = twice_fib 10");
    assert!(lua.contains("local twice_fib=function(__a) return twice(fib(__a)) end\n\n"));
    assert!(lua.ends_with("local a=(twice_fib)(10)\n"));
}

#[test]
fn pipes_apply_one_side_to_the_other() {
    assert_eq!(compile("f = 1\nx = 2\nf <| x"), "local f=1\nlocal x=2\nf(x)\n");
    assert_eq!(compile("f = 1\nx = 2\nx |> f"), "local f=1\nlocal x=2\nf(x)\n");
}

#[test]
fn reserved_words_get_an_underscore() {
    assert_eq!(compile("end = 1\nend"), "local _end=1\n_end");
    assert_eq!(compile("self = 1"), "local _self=1\n");
    assert_eq!(compile("then = 1"), "local _then=1\n");
    assert_eq!(compile("ending = 1"), "local ending=1\n");
}

#[test]
fn strings_and_chars_are_quoted() {
    assert_eq!(compile("a = \"hi\""), "local a=\"hi\"\n");
    assert_eq!(compile("a = 'c'"), "local a=\"c\"\n");
    assert_eq!(compile("a = true"), "local a=true\n");
}

#[test]
fn infix_operators_are_parenthesised() {
    assert_eq!(compile("a = 1\nb = a ~= 2"), "local a=1\nlocal b=(a~=2)\n");
    assert_eq!(compile("a = 1\nb = a ++ a"), "local a=1\nlocal b=(a..a)\n");
    assert_eq!(compile("a = 1 + 2 * 3"), "local a=(1+(2*3))\n");
}

#[test]
fn an_arm_with_two_patterns_needs_both() {
    let lua = compile("f = { |0, 1| 5 }");
    assert!(lua.contains(
        "if 3 == #__args then\nif 0 == __args[2] then\nif 1 == __args[3] then\nreturn 5\nend\nend\nend\n"
    ));
}

#[test]
fn a_name_after_a_pattern_is_bound_from_its_own_place() {
    let lua = compile("f = { |0, n| n }");
    assert!(lua.contains(
        "if 3 == #__args then\nlocal n = __args[3]\nif 0 == __args[2] then\nreturn n\nend\nend\n"
    ));
}

#[test]
fn last_plain_expression_of_a_function_is_returned() {
    let lua = compile("f = {\n  a = 1\n  a\n}");
    assert_eq!(
        lua,
        "local f=setmetatable({}, {__call = function(...)\nlocal __args = {...}\n\
         local a=1\n\nreturn a\nend,\n})\n"
    );
}

#[test]
fn undeclared_name_fails_the_check_at_its_position() {
    let checker = Checker::new(parse("x"));
    let mut symtab = SymTab::new_global();
    let error = checker.check(&mut symtab).unwrap_err();
    assert_eq!(error.to_string(), "undeclared use");
    let position = error.position.unwrap();
    assert_eq!((position.line, position.col), (1, 0));
}

#[test]
fn undeclared_name_on_a_later_line() {
    let checker = Checker::new(parse("a = 1\nb = a + c"));
    let mut symtab = SymTab::new_global();
    let error = checker.check(&mut symtab).unwrap_err();
    let position = error.position.unwrap();
    assert_eq!((position.line, position.col), (2, 8));
    assert_eq!(symtab.get_name("a"), Some((0, 0)));
    assert_eq!(symtab.get_name("b"), Some((1, 0)));
}

#[test]
fn parameters_are_visible_in_their_arm_only() {
    let good = Checker::new(parse("f = { |n| n }"));
    assert!(good.check(&mut SymTab::new_global()).is_ok());
    let bad = Checker::new(parse("f = { |n| n }\nn"));
    assert!(bad.check(&mut SymTab::new_global()).is_err());
    let across = Checker::new(parse("f = { |n| n |m| n }"));
    assert!(across.check(&mut SymTab::new_global()).is_err());
}

#[test]
fn a_name_may_refer_to_itself() {
    let checker = Checker::new(parse("loop = { |n| loop n }"));
    assert!(checker.check(&mut SymTab::new_global()).is_ok());
}

#[test]
fn use_before_assignment_fails() {
    let checker = Checker::new(parse("b = a\na = 1"));
    assert!(checker.check(&mut SymTab::new_global()).is_err());
}

#[test]
fn assignment_inside_a_function_literal_reaches_its_scope() {
    let checker = Checker::new(parse("f = {\n  a = 10\n  |n| a\n}\na"));
    assert!(checker.check(&mut SymTab::new_global()).is_ok());
}

#[test]
fn names_in_an_index_are_checked() {
    let checker = Checker::new(parse("x[0]"));
    let error = checker.check(&mut SymTab::new_global()).unwrap_err();
    assert_eq!(error.to_string(), "undeclared use");
    assert_eq!(error.position.map(|p| (p.line, p.col)), Some((1, 0)));

    let checker = Checker::new(parse("x = 1\nx[y]"));
    let error = checker.check(&mut SymTab::new_global()).unwrap_err();
    assert_eq!(error.position.map(|p| (p.line, p.col)), Some((2, 2)));

    let checker = Checker::new(parse("x = 1\ny = 2\nx[y]"));
    assert!(checker.check(&mut SymTab::new_global()).is_ok());
}

#[test]
fn call_checks_callee_then_arguments() {
    let checker = Checker::new(parse("f = 1\nf a, b"));
    let error = checker.check(&mut SymTab::new_global()).unwrap_err();
    let position = error.position.unwrap();
    assert_eq!((position.line, position.col), (2, 2));
}

#[test]
fn operand_precedences() {
    assert_eq!(Operand::from_str("^"), Some((Operand::Pow, 0)));
    assert_eq!(Operand::from_str("*"), Some((Operand::Mul, 1)));
    assert_eq!(Operand::from_str("/"), Some((Operand::Div, 1)));
    assert_eq!(Operand::from_str("%"), Some((Operand::Mod, 1)));
    assert_eq!(Operand::from_str("+"), Some((Operand::Add, 2)));
    assert_eq!(Operand::from_str("-"), Some((Operand::Sub, 2)));
    assert_eq!(Operand::from_str("=="), Some((Operand::Equal, 3)));
    assert_eq!(Operand::from_str("~="), Some((Operand::NEqual, 3)));
    assert_eq!(Operand::from_str("<"), Some((Operand::Lt, 4)));
    assert_eq!(Operand::from_str(">"), Some((Operand::Gt, 4)));
    assert_eq!(Operand::from_str("<="), Some((Operand::LtEqual, 4)));
    assert_eq!(Operand::from_str(">="), Some((Operand::GtEqual, 4)));
    assert_eq!(Operand::from_str("."), Some((Operand::Combine, 5)));
    assert_eq!(Operand::from_str("++"), Some((Operand::Concat, 5)));
    assert_eq!(Operand::from_str("<|"), Some((Operand::PipeLeft, 5)));
    assert_eq!(Operand::from_str("|>"), Some((Operand::PipeRight, 5)));
    assert_eq!(Operand::from_str("="), None);
    assert_eq!(Operand::from_str(""), None);
}

#[test]
fn operand_target_tokens() {
    assert_eq!(Operand::Pow.to_string(), "^");
    assert_eq!(Operand::NEqual.to_string(), "~=");
    assert_eq!(Operand::GtEqual.to_string(), ">=");
    assert_eq!(Operand::Concat.to_string(), "..");
    assert_eq!(Operand::Combine.to_string(), "..");
}

#[test]
fn token_kinds_of_a_small_program() {
    let kinds: Vec<TokenType> = lex("a = f 1, \"s\"\n").iter().map(|t| t.token_type).collect();
    assert_eq!(
        kinds,
        vec![
            TokenType::Identifier,
            TokenType::Symbol,
            TokenType::Identifier,
            TokenType::IntLiteral,
            TokenType::Symbol,
            TokenType::StringLiteral,
            TokenType::EOL,
        ]
    );
}

#[test]
fn a_program_of_several_definitions() {
    let source = "
fib = {
    |0| 0

    a = 10

    |1| 1
    |n| (fib n - 1) + fib n - 2
}

twice = {
    |n| 2 * n
}

twice_fib = twice . fib

a = twice_fib 10
    ";
    assert_eq!(
        program_shape(source),
        "fib = Function(Block[Arm(0 => 0); a = 10; Arm(1 => 1); \
         Arm(n => Add(Call(fib; Sub(n, 1)), Call(fib; Sub(n, 2))))]); \
         twice = Function(Block[Arm(n => Mul(2, n))]); \
         twice_fib = Combine(twice, fib); \
         a = Call(twice_fib; 10)"
    );
    assert_eq!(
        compile(source),
        "local fib=setmetatable({}, {__call = function(...)\nlocal __args = {...}\n\
         if 2 == #__args then\nif 0 == __args[2] then\nreturn 0\nend\nend\n\n\
         local a=10\n\n\
         if 2 == #__args then\nif 1 == __args[2] then\nreturn 1\nend\nend\n\n\
         if 2 == #__args then\nlocal n = __args[2]\nreturn ((fib)((n-1))+(fib)((n-2)))\nend\n\n\
         end,\n})\n\
         local twice=setmetatable({}, {__call = function(...)\nlocal __args = {...}\n\
         if 2 == #__args then\nlocal n = __args[2]\nreturn (2*n)\nend\n\n\
         end,\n})\n\
         local twice_fib=function(__a) return twice(fib(__a)) end\n\n\
         local a=(twice_fib)(10)\n"
    );
}

#[test]
fn positions_of_nodes_are_those_of_the_tokens_behind_them() {
    let statements = parse("a = f 1\nb");
    match &statements[0] {
        Statement::Assignment(assignment) => {
            assert_eq!((assignment.position.line, assignment.position.col), (2, 0));
            match &*assignment.right {
                Expression::Call(call) => {
                    assert_eq!((call.position.line, call.position.col), (2, 0));
                }
                other => panic!("{:?}", other),
            }
        }
        other => panic!("{:?}", other),
    }
}

#[test]
fn syntax_trees_can_be_copied() {
    let statements = parse("f = { |0| 0 |n| f n - 1 }\nf 3");
    let copies = statements.clone();
    assert_eq!(format!("{:?}", copies), format!("{:?}", statements));
    assert_eq!(
        Transpiler::new(copies).lua().unwrap(),
        Transpiler::new(statements).lua().unwrap()
    );
}

#[test]
fn compile_runs_the_stages_in_a_row() {
    assert_eq!(golf::compile::compile("a = 1\nb = a + 2").unwrap(), "local a=1\nlocal b=(a+2)\n");
    assert_eq!(golf::compile::compile("").unwrap(), "");
    assert_eq!(golf::compile::compile("a = 1.50").unwrap(), "local a=1.50\n");
}

#[test]
fn compile_stops_at_the_first_stage_that_fails() {
    assert!(matches!(
        golf::compile::compile("a = 1.2.3"),
        Err(CompileError::Lex(e)) if e.to_string() == "illegal decimal point"
    ));
    assert!(matches!(
        golf::compile::compile("a = )"),
        Err(CompileError::Parse(e)) if e.message_text() == "unexpected symbol: )"
    ));
    assert!(matches!(
        golf::compile::compile("a = b"),
        Err(CompileError::Check(e)) if e.position.map(|p| (p.line, p.col)) == Some((1, 4))
    ));
    assert!(matches!(
        compile_tokens(lex("x")),
        Err(CompileError::Check(e)) if e.to_string() == "undeclared use"
    ));
    assert_eq!(compile_tokens(Vec::new()).unwrap(), "");
}

#[test]
fn compile_of_a_classified_text() {
    let items: Vec<char> = "a = 1".chars().collect();
    let classes = golf::text::classify_all(&items);
    assert_eq!(golf::compile::compile_classified(items, classes).unwrap(), "local a=1\n");
}
