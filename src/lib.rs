use vstd::prelude::*;

use codegen::arduino_code;
use parser::parse_source;

pub mod codegen;
pub mod ir;
pub mod lexer;
pub mod parser;
pub mod theorems;

pub use codegen::generate_arduino_code;
pub use ir::{Command, Program, Section};
pub use lexer::{Lexer, Token};
pub use parser::Parser;

verus! {

/// The first error met while compiling, by the stage that met it.
#[derive(Debug, Clone, PartialEq)]
pub enum CompilerError {
    LexerError(String),
    ParserError(String),
    CodegenError(String),
}

pub enum ErrorView {
    Lexer(Seq<char>),
    Parser(Seq<char>),
    Codegen(Seq<char>),
}

impl View for CompilerError {
    type V = ErrorView;

    open spec fn view(&self) -> ErrorView {
        match self {
            CompilerError::LexerError(m) => ErrorView::Lexer(m@),
            CompilerError::ParserError(m) => ErrorView::Parser(m@),
            CompilerError::CodegenError(m) => ErrorView::Codegen(m@),
        }
    }
}

/// The message of an error, prefixed by its stage.
pub open spec fn error_text(e: ErrorView) -> Seq<char> {
    match e {
        ErrorView::Lexer(m) => "Lexer error: "@ + m,
        ErrorView::Parser(m) => "Parser error: "@ + m,
        ErrorView::Codegen(m) => "Codegen error: "@ + m,
    }
}

impl CompilerError {
    /// The error as a human-readable message.
    pub fn to_string(&self) -> (r: String)
        ensures
            r@ == error_text(self@),
    {
        let (mut r, m) = match self {
            CompilerError::LexerError(m) => (String::from_str("Lexer error: "), m),
            CompilerError::ParserError(m) => (String::from_str("Parser error: "), m),
            CompilerError::CodegenError(m) => (String::from_str("Codegen error: "), m),
        };
        r.append(m.as_str());
        r
    }
}

/// The firmware text for a source text, or the first error of the stage that failed.
pub open spec fn arduino_of_source(s: Seq<char>) -> Result<Seq<char>, ErrorView> {
    match parse_source(s) {
        Err(e) => Err(e),
        Ok(p) => match arduino_code(p) {
            Ok(t) => Ok(t),
            Err(m) => Err(ErrorView::Codegen(m)),
        },
    }
}

/// Parses a source text into its program.
pub fn parse_program(input: String) -> (r: Result<Program, CompilerError>)
    ensures
        match parse_source(input@) {
            Ok(p) => r is Ok && r->Ok_0@ == p,
            Err(e) => r is Err && r->Err_0@ == e,
        },
{
    let mut parser = Parser::new(input);
    parser.parse()
}

/// Compiles a source text to firmware text.
pub fn compile_to_arduino(input: String) -> (r: Result<String, CompilerError>)
    ensures
        match arduino_of_source(input@) {
            Ok(t) => r is Ok && r->Ok_0@ == t,
            Err(e) => r is Err && r->Err_0@ == e,
        },
{
    let program = match parse_program(input) {
        Ok(p) => p,
        Err(e) => {
            return Err(e);
        },
    };
    match generate_arduino_code(&program) {
        Ok(t) => Ok(t),
        Err(m) => Err(CompilerError::CodegenError(m)),
    }
}

} // verus!
