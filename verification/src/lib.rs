//! A verified front end for a tiny expression language: lexing,
//! recursive-descent parsing, identifier binding, and emission of a
//! flat intermediate representation for a code-generation backend.
//! Each stage is specified against a mathematical model of the source
//! text, so the whole pipeline is a function of the input characters.

pub mod lexer;
pub mod parser;
pub mod semantic;
pub mod ir;

use vstd::prelude::*;

use crate::ir::{emit, lemma_size_function, spec_emit, EmitError, EmitErrorV, IrOp, IrOpV};
use crate::lexer::{LexError, LexErrorV, Lexer};
use crate::parser::{spec_parse_function, Function, FunctionV, ParseError, ParseErrorV, Parser};
use crate::semantic::{spec_analyze_function, SemanticAnalyzer, SemanticError, SemanticErrorV};

verus! {

/// The failure of one stage of the pipeline; the first failure aborts
/// the compilation.
#[derive(Debug)]
pub enum CompileError {
    /// The source failed to lex.
    Lex(LexError),
    /// The token stream failed to parse.
    Parse(ParseError),
    /// An identifier failed to bind.
    Semantic(SemanticError),
    /// A bound tree failed to emit: a contract breach between stages,
    /// not a user error.
    Internal(EmitError),
}

/// Mathematical model of a pipeline failure.
pub enum CompileErrorV {
    Lex(LexErrorV),
    Parse(ParseErrorV),
    Semantic(SemanticErrorV),
    Internal(EmitErrorV),
}

impl View for CompileError {
    type V = CompileErrorV;

    open spec fn view(&self) -> CompileErrorV {
        match self {
            CompileError::Lex(e) => CompileErrorV::Lex(e@),
            CompileError::Parse(e) => CompileErrorV::Parse(e@),
            CompileError::Semantic(e) => CompileErrorV::Semantic(e@),
            CompileError::Internal(e) => CompileErrorV::Internal(e@),
        }
    }
}

/// The whole pipeline over the character sequence of the source: the
/// parsed function and its IR, or the failure of the first stage that
/// rejects the input.
pub open spec fn spec_compile(s: Seq<char>) -> Result<(FunctionV, Seq<IrOpV>), CompileErrorV> {
    match spec_parse_function(s, 0) {
        Err(ParseErrorV::Lex(e)) => Err(CompileErrorV::Lex(e)),
        Err(pe) => Err(CompileErrorV::Parse(pe)),
        Ok((f, p)) => match spec_analyze_function(f) {
            Err(se) => Err(CompileErrorV::Semantic(se)),
            Ok(u) => Ok((f, spec_emit(f))),
        },
    }
}

/// Runs the pipeline on one source text: lexes and parses the single
/// function definition it holds, binds its identifiers, and emits its
/// IR.  The result is exactly `spec_compile` of the source characters,
/// so compilation is deterministic.
pub fn compile(source: &str) -> (r: Result<(Function, Vec<IrOp>), CompileError>)
    ensures
        match spec_compile(source@) {
            Ok((fv, opsv)) => r matches Ok((f, ops)) && f@ == fv && ops.deep_view() == opsv,
            Err(e) => r matches Err(err) && err@ == e,
        },
{
    let len = source.unicode_len();
    let lexer = Lexer::new(source);
    let mut parser = Parser::new(lexer);
    let f = match parser.parse_function() {
        Err(ParseError::Lex(le)) => {
            return Err(CompileError::Lex(le));
        },
        Err(e) => {
            return Err(CompileError::Parse(e));
        },
        Ok(x) => x,
    };
    let mut analyzer = SemanticAnalyzer::new();
    match analyzer.analyze_function(&f) {
        Err(e) => {
            return Err(CompileError::Semantic(e));
        },
        Ok(u) => {},
    }
    proof {
        lemma_size_function(source@, 0);
    }
    match emit(&f) {
        Err(e) => Err(CompileError::Internal(e)),
        Ok(ops) => Ok((f, ops)),
    }
}

/// Compilation is deterministic: any two results that meet the
/// contract of `compile` on the same source are equal, because each is
/// pinned to `spec_compile` of the source characters.
pub proof fn lemma_compile_deterministic(
    s: Seq<char>,
    r1: Result<(FunctionV, Seq<IrOpV>), CompileErrorV>,
    r2: Result<(FunctionV, Seq<IrOpV>), CompileErrorV>,
)
    requires
        r1 == spec_compile(s),
        r2 == spec_compile(s),
    ensures
        r1 == r2,
{
}

} // verus!
