//! The stages in a row: text or tokens in, Lua text or the first error out.

use vstd::prelude::*;
use crate::checker::{checked_statements, undeclared_message, Checker};
use crate::error::{CheckError, LexError, ParserError, TranspileError};
use crate::finished::lemma_parsed_program_lowers;
use crate::grammar::{program, Failure};
use crate::lexer::{
    classified_lexer, lemma_next_step_is_within, lemma_standard_lexed, lexed, next_step,
    standard_lexed, Step,
};
use crate::matcher::AnyMatcher;
use crate::parser::{fails_as, Parser};
use crate::symtab::{Level, SymTab};
use crate::text::{chars_of, classes_of, classify_all, CharClass};
use crate::token::{tokens_view, Token, TokenPosition, TokenView};
use crate::transpiler::{lua_statements_text, malformed_function_message, Transpiler};
use crate::traveler::Traveler;

verus! {

/// The error of the stage that stopped.
#[derive(Debug)]
pub enum CompileError {
    Lex(LexError),
    Parse(ParserError),
    Check(CheckError),
    Transpile(TranspileError),
}

/// What the stages behind the lexer make of tokens.
pub enum Compiled {
    /// The Lua text of the program.
    Text(Seq<char>),
    /// The tokens are no program.
    Unparsed(Failure),
    /// The name at this position is used without a binding.
    Unbound(TokenPosition),
    /// The function literal at this position cannot be lowered.
    Unlowered(TokenPosition),
}

/// The outermost scope before anything is declared in it.
pub open spec fn empty_scope() -> Seq<Level> {
    seq![Seq::<(Seq<char>, nat)>::empty()]
}

/// What comes of tokens: they are parsed, the program is checked in an
/// empty outermost scope, and what passes is lowered. The first stage that
/// fails decides.
pub open spec fn compiled(tokens: Seq<TokenView>) -> Compiled {
    match program(tokens, 0, Seq::empty()) {
        Err(f) => Compiled::Unparsed(f),
        Ok(statements) => match checked_statements(
            statements,
            statements.len(),
            empty_scope(),
        ).failure {
            Some(p) => Compiled::Unbound(p),
            None => match lua_statements_text(statements, statements.len()) {
                Ok(text) => Compiled::Text(text),
                Err(p) => Compiled::Unlowered(p),
            },
        },
    }
}

/// The code generator fails on no program that was parsed and checked: what
/// comes of tokens is the Lua text, a parse failure or a check failure.
pub proof fn lemma_compiled_is_lowered(tokens: Seq<TokenView>)
    ensures
        !(compiled(tokens) is Unlowered),
{
    lemma_parsed_program_lowers(tokens);
}

/// Whether a result is what comes of the tokens.
pub open spec fn compiles_to(r: Result<String, CompileError>, outcome: Compiled) -> bool {
    match outcome {
        Compiled::Text(text) => r matches Ok(s) && s@ == text,
        Compiled::Unparsed(f) => r matches Err(CompileError::Parse(e)) && fails_as(e, f),
        Compiled::Unbound(p) => r matches Err(CompileError::Check(e)) && e.position == Some(p)
            && e.message() == undeclared_message(),
        Compiled::Unlowered(p) => r matches Err(CompileError::Transpile(e)) && e.position == Some(
            p,
        ) && e.message() == malformed_function_message(),
    }
}

/// Parses the tokens, checks the program and lowers it.
pub fn compile_tokens(tokens: Vec<Token>) -> (r: Result<String, CompileError>)
    requires
        tokens@.len() < usize::MAX,
    ensures
        compiles_to(r, compiled(tokens_view(tokens@))),
{
    let mut parser = Parser::new(Traveler::new(tokens));
    let ast = match parser.parse() {
        Ok(ast) => ast,
        Err(e) => {
            return Err(CompileError::Parse(e));
        },
    };
    let checker = Checker::new(ast);
    let mut symtab = SymTab::new_global();
    match checker.check(&mut symtab) {
        Ok(_) => {},
        Err(e) => {
            return Err(CompileError::Check(e));
        },
    }
    let transpiler = Transpiler::new(checker.ast);
    match transpiler.lua() {
        Ok(lua) => Ok(lua),
        Err(e) => Err(CompileError::Transpile(e)),
    }
}

/// The lexer gives no more tokens than the text has characters left.
pub proof fn lemma_lexed_count(
    matchers: Seq<AnyMatcher>,
    items: Seq<char>,
    classes: Seq<CharClass>,
    at: int,
    tokens: Seq<TokenView>,
)
    requires
        0 <= at <= items.len(),
    ensures
        lexed(matchers, items, classes, at, tokens) matches Ok(all) ==> all.len() <= tokens.len()
            + items.len() - at,
    decreases items.len() - at,
{
    lemma_next_step_is_within(matchers, items, classes, at);
    match next_step(matchers, items, classes, at) {
        Step::Take { token, end } => {
            lemma_lexed_count(matchers, items, classes, end, tokens.push(token));
        },
        _ => {},
    }
}

/// Whether a result is what comes of a text with the matchers of the
/// language: the failure of the lexer, or what comes of its tokens.
pub open spec fn compiles_text(
    r: Result<String, CompileError>,
    items: Seq<char>,
    classes: Seq<CharClass>,
) -> bool {
    match standard_lexed(items, classes, 0, Seq::empty()) {
        Err((message, position)) => r matches Err(CompileError::Lex(e)) && e.message() == message
            && e.position == Some(position),
        Ok(tokens) => compiles_to(r, compiled(tokens)),
    }
}

/// Lowers a source text to Lua with the matchers of the language: the
/// text is lexed, parsed, checked and lowered. Each character has the class
/// that the standard library gives it. A number is written out as its
/// token holds it.
pub fn compile(source: &str) -> (r: Result<String, CompileError>)
    requires
        source@.len() < usize::MAX,
    ensures
        compiles_text(r, source@, classes_of(source@)),
{
    let items = chars_of(source);
    let classes = classify_all(&items);
    compile_classified(items, classes)
}

/// Lowers the characters `items`, whose classes are `classes`, to Lua with
/// the matchers of the language.
pub fn compile_classified(items: Vec<char>, classes: Vec<CharClass>) -> (r: Result<
    String,
    CompileError,
>)
    requires
        items@.len() < usize::MAX,
        classes@.len() == items@.len(),
    ensures
        compiles_text(r, items@, classes@),
{
    let mut lexer = classified_lexer(items, classes);
    let ghost matchers = lexer.matchers@;
    proof {
        lemma_lexed_count(matchers, items@, classes@, 0, Seq::empty());
        lemma_standard_lexed(matchers, items@, classes@, 0, Seq::empty());
    }
    let tokens = match lexer.tokens() {
        Ok(tokens) => tokens,
        Err(e) => {
            return Err(CompileError::Lex(e));
        },
    };
    assert(tokens_view(tokens@).len() == tokens@.len());
    compile_tokens(tokens)
}

} // verus!
