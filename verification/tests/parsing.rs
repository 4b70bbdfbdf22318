use golf::ast::{
    Arm, Assignment, Call, Expression, Function, Index, Operand, Operation, Statement,
};
use golf::checker::Checker;
use golf::error::{CheckError, ParserError, TranspileError};
use golf::lexer::lexer;
use golf::parser::Parser;
use golf::symtab::SymTab;
use golf::token::{Token, TokenPosition, TokenType};
use golf::transpiler::Transpiler;
use golf::traveler::Traveler;

fn token(kind: TokenType, text: &str) -> Token {
    Token::new(kind, TokenPosition::new(1, 0), text.to_string())
}

fn traveler(source: &str) -> Traveler {
    Traveler::new(lexer(source).tokens().unwrap())
}

fn parse_error(source: &str) -> ParserError {
    Parser::new(traveler(source)).parse().unwrap_err()
}

fn name(text: &str) -> Expression {
    Expression::Identifier(text.to_string(), TokenPosition::new(1, 0))
}

fn number(text: &str) -> Expression {
    Expression::Number(text.to_string())
}

fn lower(expression: Expression) -> String {
    Transpiler::new(Vec::new()).lua_expression(&expression).unwrap()
}

#[test]
fn traveler_remaining_counts_one_past_the_tokens() {
    let mut t = traveler("a b");
    assert_eq!(t.remaining(), 3);
    assert!(t.next());
    assert_eq!(t.remaining(), 2);
    assert!(t.next());
    assert_eq!(t.remaining(), 1);
    assert!(!t.next());
    assert_eq!(t.remaining(), 1);
    assert_eq!(Traveler::new(Vec::new()).remaining(), 1);
}

#[test]
fn traveler_current_is_the_last_token_past_the_end() {
    let mut t = traveler("a b");
    assert_eq!(t.current_content(), "a");
    t.next();
    assert_eq!(t.current_content(), "b");
    t.next();
    assert_eq!(t.current_content(), "b");
    assert_eq!(t.current().token_type, TokenType::Identifier);
}

#[test]
fn traveler_prev_stops_at_the_first_token() {
    let mut t = traveler("a b");
    assert!(!t.prev());
    t.next();
    assert!(t.prev());
    assert_eq!(t.current_content(), "a");
}

#[test]
fn traveler_get_hands_out_a_token_by_its_place() {
    let t = traveler("a b c");
    assert_eq!(t.get(1).content(), "b");
    assert_eq!(t.get(2).content(), "c");
}

#[test]
fn traveler_expect_names_the_kind_and_the_text() {
    let t = traveler("abc");
    assert_eq!(t.expect(TokenType::Identifier).unwrap(), "abc");
    let error = t.expect(TokenType::IntLiteral).unwrap_err();
    assert_eq!(error.to_string(), "[1, 0]: expected 'IntLiteral', found 'abc'");
    assert_eq!(error.message_text(), "expected 'IntLiteral', found 'abc'");
}

#[test]
fn traveler_expect_content_names_both_texts() {
    let mut t = traveler("a )");
    t.next();
    assert_eq!(t.expect_content(")").unwrap(), ")");
    let error = t.expect_content("]").unwrap_err();
    assert_eq!(error.message_text(), "expected ']', found ')'");
    assert_eq!(error.position, Some(TokenPosition::new(1, 2)));
    assert_eq!(t.remaining(), 2);
}

#[test]
fn traveler_expect_contents_matches_a_run_of_texts() {
    let mut t = traveler("a b c");
    t.next();
    let found = t.expect_contents(vec!["b".to_string(), "c".to_string()]).unwrap();
    assert_eq!(found.len(), 2);
    assert_eq!(found[0].content(), "b");
    assert_eq!(found[1].content(), "c");
    assert_eq!(
        t.expect_contents(vec!["b".to_string(), "d".to_string()]).unwrap_err(),
        "expected 'd', found 'c'"
    );
    assert_eq!(
        t.expect_contents(vec!["b".to_string(), "c".to_string(), "d".to_string()]).unwrap_err(),
        "expected 'd', found end of source >:("
    );
    assert!(t.expect_contents(Vec::new()).unwrap().is_empty());
}

#[test]
fn parser_term_reads_one_unit() {
    let mut parser = Parser::new(traveler("12 + x"));
    assert!(matches!(parser.term().unwrap(), Expression::Number(n) if n == "12"));
    assert_eq!(parser.traveler.current_content(), "+");
}

#[test]
fn parser_term_past_the_end_is_the_end_mark() {
    let mut parser = Parser::new(Traveler::new(Vec::new()));
    assert!(matches!(parser.term().unwrap(), Expression::EOF));
    let mut parser = Parser::new(traveler("a"));
    parser.traveler.next();
    assert!(matches!(parser.term().unwrap(), Expression::EOF));
}

#[test]
fn parser_skip_whitespace_moves_over_line_ends_and_indentation() {
    let mut parser = Parser::new(traveler("\n  \n\ta"));
    assert!(parser.skip_whitespace().is_ok());
    assert_eq!(parser.traveler.current_content(), "a");
    assert!(parser.skip_whitespace().is_ok());
    assert_eq!(parser.traveler.current_content(), "a");
    assert_eq!(parser.traveler.remaining(), 2);
}

#[test]
fn assignment_needs_an_expression_on_its_line() {
    let error = parse_error("a =\n1");
    assert_eq!(error.message_text(), "expected expression, found: \"\\n\"");
    assert_eq!(error.position, Some(TokenPosition::new(1, 3)));
}

#[test]
fn assignment_at_the_end_of_input_is_an_error() {
    let error = parse_error("a =");
    assert_eq!(error.message_text(), "expected expression, found end of input");
}

#[test]
fn operator_without_a_right_side_is_an_error() {
    assert_eq!(parse_error("a +").message_text(), "expected expression, found end of input");
    assert_eq!(parse_error("a + b *").message_text(), "expected expression, found end of input");
    assert_eq!(parse_error("a +\n").message_text(), "expected expression, found end of input");
}

#[test]
fn operator_may_be_followed_by_one_line_end() {
    let statements = Parser::new(traveler("a +\nb")).parse().unwrap();
    assert_eq!(statements.len(), 1);
    assert!(matches!(
        &statements[0],
        Statement::Expression(e) if matches!(&**e, Expression::Operation(o) if o.op == Operand::Add)
    ));
}

#[test]
fn missing_closing_parenthesis_is_an_error() {
    let error = parse_error("(a b");
    assert_eq!(error.message_text(), "expected ')', found 'b'");
    assert_eq!(parse_error("(").message_text(), "expected expression, found end of input");
}

#[test]
fn missing_closing_bracket_is_an_error() {
    assert_eq!(parse_error("a[1").message_text(), "expected ']', found '1'");
    assert_eq!(parse_error("a[").message_text(), "expected expression, found end of input");
}

#[test]
fn missing_closing_brace_is_an_error() {
    assert_eq!(parse_error("f = { |n| n").message_text(), "expected '}', found 'n'");
    assert_eq!(parse_error("{ a").message_text(), "expected '}', found 'a'");
}

#[test]
fn missing_bar_or_comma_in_an_arm_is_an_error() {
    assert_eq!(parse_error("{ |a ) b| a }").message_text(), "expected ',', found ')'");
    assert_eq!(parse_error("{ |a").message_text(), "expected ',', found 'a'");
    assert_eq!(
        parse_error("{ |a, ").message_text(),
        "expected '|', found ','"
    );
}

#[test]
fn arm_without_a_body_is_an_error() {
    assert_eq!(parse_error("{ |a|").message_text(), "expected expression, found end of input");
    assert_eq!(parse_error("{ |a| }").message_text(), "unexpected symbol: }");
}

#[test]
fn unexpected_tokens_are_errors() {
    let error = parse_error("a = )");
    assert_eq!(error.message_text(), "unexpected symbol: )");
    assert_eq!(error.position, Some(TokenPosition::new(1, 4)));
    assert_eq!(parse_error("+ a").message_text(), "unexpected: +");
}

#[test]
fn operator_token_with_unknown_text_is_an_error() {
    let tokens = vec![
        token(TokenType::Identifier, "a"),
        token(TokenType::Operator, "??"),
        token(TokenType::Identifier, "b"),
    ];
    let error = Parser::new(Traveler::new(tokens)).parse().unwrap_err();
    assert_eq!(error.message_text(), "unexpected operator: ??");
}

#[test]
fn char_token_without_a_character_is_an_error() {
    let tokens = vec![token(TokenType::CharLiteral, "")];
    let error = Parser::new(Traveler::new(tokens)).parse().unwrap_err();
    assert_eq!(error.message_text(), "unexpected: ");
}

#[test]
fn parser_errors_without_a_position_read_as_their_message() {
    let error = ParserError::new("broken");
    assert_eq!(error.to_string(), "broken");
    assert_eq!(error.position, None);
    let error = ParserError::new_pos(TokenPosition::new(3, 4), "broken");
    assert_eq!(error.to_string(), "[3, 4]: broken");
}

#[test]
fn check_and_transpile_errors_read_as_their_message() {
    let error = CheckError::new("plain");
    assert_eq!(error.to_string(), "plain");
    assert_eq!(error.position, None);
    let error = CheckError::new_pos("undeclared use", TokenPosition::new(2, 1));
    assert_eq!(error.to_string(), "undeclared use");
    assert_eq!(error.position, Some(TokenPosition::new(2, 1)));
    let error = TranspileError::new_pos("bad tree", TokenPosition::new(5, 6));
    assert_eq!(error.to_string(), "bad tree");
    assert_eq!(error.position, Some(TokenPosition::new(5, 6)));
}

#[test]
fn function_without_a_block_cannot_be_lowered() {
    let function = Expression::Function(Function {
        arms: Box::new(number("1")),
        position: TokenPosition::new(4, 2),
    });
    let statement = Statement::Assignment(Assignment {
        left: Box::new(name("f")),
        right: Box::new(function),
        position: TokenPosition::new(4, 9),
    });
    let error = Transpiler::new(vec![statement]).lua().unwrap_err();
    assert_eq!(error.to_string(), "function literal without a block of arms");
    assert_eq!(error.position, Some(TokenPosition::new(4, 2)));
}

#[test]
fn function_without_a_block_is_checked_as_what_it_stands_over() {
    let function = |inner: Expression| {
        Statement::Expression(Box::new(Expression::Function(Function {
            arms: Box::new(inner),
            position: TokenPosition::new(1, 0),
        })))
    };
    let checker = Checker::new(vec![function(name("nowhere"))]);
    assert!(checker.check(&mut SymTab::new_global()).is_err());
    let checker = Checker::new(vec![function(number("1"))]);
    assert!(checker.check(&mut SymTab::new_global()).is_ok());
}

#[test]
fn arm_outside_a_function_is_checked_in_its_own_scope() {
    let arm = |body: &str| {
        Expression::Arm(Arm {
            params: vec![name("n"), number("0")],
            body: Box::new(Statement::Expression(Box::new(name(body)))),
            position: TokenPosition::new(1, 0),
        })
    };
    let checker = Checker::new(Vec::new());
    let mut symtab = SymTab::new_global();
    symtab.add_name("outer");
    assert!(checker.check_expression(&mut symtab, &arm("n")).is_ok());
    assert!(checker.check_expression(&mut symtab, &arm("outer")).is_ok());
    assert!(checker.check_expression(&mut symtab, &arm("other")).is_err());
    assert_eq!(symtab.get_name("n"), None);
}

#[test]
fn index_checks_the_base_and_then_the_place() {
    let index = |id: &str, place: &str| {
        Expression::Index(Index {
            id: Box::new(Expression::Identifier(id.to_string(), TokenPosition::new(3, 1))),
            index: Box::new(Expression::Identifier(place.to_string(), TokenPosition::new(3, 5))),
            position: TokenPosition::new(3, 7),
        })
    };
    let checker = Checker::new(Vec::new());
    let mut symtab = SymTab::new_global();
    symtab.add_name("a");
    symtab.add_name("i");
    assert!(checker.check_expression(&mut symtab, &index("a", "i")).is_ok());
    let error = checker.check_expression(&mut symtab, &index("x", "y")).unwrap_err();
    assert_eq!(error.position, Some(TokenPosition::new(3, 1)));
    let error = checker.check_expression(&mut symtab, &index("a", "y")).unwrap_err();
    assert_eq!(error.position, Some(TokenPosition::new(3, 5)));
}

#[test]
fn assignment_to_something_else_binds_nothing() {
    let target = Expression::Index(Index {
        id: Box::new(name("a")),
        index: Box::new(number("0")),
        position: TokenPosition::new(1, 0),
    });
    let statement = Statement::Assignment(Assignment {
        left: Box::new(target),
        right: Box::new(name("missing")),
        position: TokenPosition::new(1, 0),
    });
    let checker = Checker::new(vec![statement]);
    let mut symtab = SymTab::new_global();
    assert!(checker.check(&mut symtab).is_ok());
    assert_eq!(symtab.get_name("a"), None);
    let lowered = Transpiler::new(checker.ast).lua().unwrap();
    assert_eq!(lowered, "local =missing\n");
}

#[test]
fn block_lowers_to_its_statements_in_a_row() {
    let block = Expression::Block(vec![
        Statement::Assignment(Assignment {
            left: Box::new(name("a")),
            right: Box::new(number("1")),
            position: TokenPosition::new(1, 0),
        }),
        Statement::Expression(Box::new(name("a"))),
    ]);
    assert_eq!(lower(block), "local a=1\na");
}

#[test]
fn operand_as_a_value() {
    assert_eq!(lower(Expression::Operand(Operand::Add)), "__add");
    assert_eq!(lower(Expression::Operand(Operand::Mul)), "");
    assert_eq!(lower(Expression::EOF), "");
}

#[test]
fn arm_with_an_operator_parameter_fills_the_table() {
    let arm = Expression::Arm(Arm {
        params: vec![Expression::Operand(Operand::Add), name("other")],
        body: Box::new(Statement::Expression(Box::new(name("other")))),
        position: TokenPosition::new(1, 0),
    });
    let function = Expression::Function(Function {
        arms: Box::new(Expression::Block(vec![Statement::Expression(Box::new(arm))])),
        position: TokenPosition::new(1, 0),
    });
    assert_eq!(
        lower(function),
        "setmetatable({}, {__add = function(_, other)\nreturn other\nend,\n\
         __call = function(...)\nlocal __args = {...}\n\
         if 3 == #__args then\nlocal other = __args[3]\nreturn other\nend\n\nend,\n})"
    );
}

#[test]
fn arm_whose_body_is_an_assignment() {
    let arm = |params: Vec<Expression>| {
        Expression::Arm(Arm {
            params,
            body: Box::new(Statement::Assignment(Assignment {
                left: Box::new(name("x")),
                right: Box::new(number("1")),
                position: TokenPosition::new(1, 0),
            })),
            position: TokenPosition::new(1, 0),
        })
    };
    assert_eq!(lower(arm(vec![name("n")])), "if 2 == #__args then\nlocal n = __args[2]\nend\n");
    assert_eq!(
        lower(arm(vec![Expression::Bool(true)])),
        "if 2 == #__args then\nif true == __args[2] then\nlocal x=1\n\nend\nend\n"
    );
    assert_eq!(lower(arm(Vec::new())), "if 1 == #__args then\nend\n");
}

#[test]
fn call_without_arguments_and_with_many() {
    let call = |args: Vec<Expression>| {
        Expression::Call(Call {
            callee: Box::new(name("f")),
            args,
            position: TokenPosition::new(1, 0),
        })
    };
    assert_eq!(lower(call(Vec::new())), "(f)()");
    assert_eq!(lower(call(vec![number("1")])), "(f)(1)");
    assert_eq!(lower(call(vec![number("1"), name("do"), number("3")])), "(f)(1,_do,3)");
}

#[test]
fn index_lowers_to_nothing() {
    let index = Expression::Index(Index {
        id: Box::new(name("a")),
        index: Box::new(number("0")),
        position: TokenPosition::new(1, 0),
    });
    assert_eq!(lower(index), "");
}

#[test]
fn operation_in_a_pattern_is_compared() {
    let pattern = Expression::Operation(Operation {
        left: Box::new(number("1")),
        op: Operand::Add,
        right: Box::new(number("2")),
        position: TokenPosition::new(1, 0),
    });
    let arm = Expression::Arm(Arm {
        params: vec![name("a"), pattern],
        body: Box::new(Statement::Expression(Box::new(name("a")))),
        position: TokenPosition::new(1, 0),
    });
    assert_eq!(
        lower(arm),
        "if 3 == #__args then\nlocal a = __args[2]\nif (1+2) == __args[3] then\nreturn a\nend\nend\n"
    );
}

#[test]
fn symtab_declares_each_name_once() {
    let mut symtab = SymTab::new_global();
    assert_eq!(symtab.get_name("a"), None);
    assert_eq!(symtab.add_name("a"), 0);
    assert_eq!(symtab.add_name("b"), 1);
    assert_eq!(symtab.add_name("a"), 0);
    assert_eq!(symtab.add_name("c"), 2);
    assert_eq!(symtab.get_name("b"), Some((1, 0)));
    assert_eq!(symtab.get_name("d"), None);
}

#[test]
fn symtab_resolves_outward_with_the_depth() {
    let mut global = SymTab::new_global();
    global.add_name("g");
    global.add_name("x");
    let middle = SymTab::new(global, &vec!["x".to_string(), "m".to_string()]);
    let mut inner = SymTab::new(middle.clone(), &vec!["i".to_string()]);
    assert_eq!(inner.get_name("i"), Some((0, 0)));
    assert_eq!(inner.get_name("m"), Some((1, 1)));
    assert_eq!(inner.get_name("x"), Some((0, 1)));
    assert_eq!(inner.get_name("g"), Some((0, 2)));
    assert_eq!(inner.get_name("nowhere"), None);
    assert_eq!(inner.add_name("g"), 1);
    assert_eq!(inner.get_name("g"), Some((1, 0)));
    assert_eq!(middle.get_name("g"), Some((0, 1)));
    assert_eq!(middle.get_name("i"), None);
}

#[test]
fn symtab_parameter_that_comes_twice_takes_the_later_place() {
    let mut symtab =
        SymTab::new(SymTab::new_global(), &vec!["a".to_string(), "b".to_string(), "a".to_string()]);
    assert_eq!(symtab.get_name("a"), Some((2, 0)));
    assert_eq!(symtab.get_name("b"), Some((1, 0)));
    assert_eq!(symtab.add_name("c"), 2);
}

#[test]
fn checker_binds_in_the_scope_it_is_given() {
    let ast = Parser::new(traveler("a = 1\nb = a")).parse().unwrap();
    let checker = Checker::new(ast);
    let mut symtab = SymTab::new_global();
    symtab.add_name("before");
    assert!(checker.check(&mut symtab).is_ok());
    assert_eq!(symtab.get_name("before"), Some((0, 0)));
    assert_eq!(symtab.get_name("a"), Some((1, 0)));
    assert_eq!(symtab.get_name("b"), Some((2, 0)));
}

#[test]
fn checker_checks_single_expressions_and_statements() {
    let checker = Checker::new(Vec::new());
    let mut symtab = SymTab::new_global();
    symtab.add_name("known");
    assert!(checker.check_expression(&mut symtab, &name("known")).is_ok());
    assert!(checker.check_expression(&mut symtab, &name("unknown")).is_err());
    assert!(checker.check_expression(&mut symtab, &number("1")).is_ok());
    let assignment = Statement::Assignment(Assignment {
        left: Box::new(name("fresh")),
        right: Box::new(name("fresh")),
        position: TokenPosition::new(1, 0),
    });
    assert!(checker.check_statement(&mut symtab, &assignment).is_ok());
    assert_eq!(symtab.get_name("fresh"), Some((1, 0)));
}

#[test]
fn transpiler_lowers_single_statements() {
    let transpiler = Transpiler::new(Vec::new());
    assert_eq!(transpiler.lua().unwrap(), "");
    let assignment = Statement::Assignment(Assignment {
        left: Box::new(name("for")),
        right: Box::new(Expression::Str("x".to_string())),
        position: TokenPosition::new(1, 0),
    });
    assert_eq!(transpiler.lua_statement(&assignment).unwrap(), "local _for=\"x\"\n");
    assert_eq!(transpiler.lua_expression(&Expression::Char('c')).unwrap(), "\"c\"");
    assert_eq!(transpiler.lua_expression(&Expression::Bool(false)).unwrap(), "false");
}

#[test]
fn a_token_whose_text_is_a_line_feed_separates() {
    assert_eq!(
        parse_error("a = \"\\n\"").message_text(),
        "expected expression, found: \"\\n\""
    );
    let statements = Parser::new(traveler("f \"\\n\"")).parse().unwrap();
    assert_eq!(statements.len(), 1);
    assert!(matches!(
        &statements[0],
        Statement::Expression(e) if matches!(&**e, Expression::Call(c) if c.args.is_empty())
    ));
}
