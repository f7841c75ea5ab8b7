//! The binder: checks that every identifier in a function body names
//! one of the function's parameters.
//!
//! The walk is depth-first and left-to-right, and stops at the first
//! unresolved identifier.  It is a pure validation pass: the tree is
//! neither mutated nor annotated.

use vstd::prelude::*;

use crate::parser::{Expr, ExprV, Function, FunctionV};

verus! {

/// A binding failure.
#[derive(Debug)]
pub enum SemanticError {
    /// An identifier that names no parameter.
    UndefinedVariable(String),
}

/// Mathematical model of a binding failure.
pub enum SemanticErrorV {
    UndefinedVariable(Seq<char>),
}

impl View for SemanticError {
    type V = SemanticErrorV;

    open spec fn view(&self) -> SemanticErrorV {
        match self {
            SemanticError::UndefinedVariable(s) => SemanticErrorV::UndefinedVariable(s@),
        }
    }
}

/// Whether `name` occurs among `params`.
pub open spec fn params_contain(params: Seq<Seq<char>>, name: Seq<char>) -> bool {
    exists|k: int| 0 <= k < params.len() && params[k] == name
}

/// The binding check of an expression against the parameter list:
/// `Ok` when every identifier resolves, else the first unresolved
/// identifier in a depth-first, left-to-right traversal.
pub open spec fn spec_analyze_expr(e: ExprV, params: Seq<Seq<char>>) -> Result<
    (),
    SemanticErrorV,
>
    decreases e,
{
    match e {
        ExprV::Number(n) => Ok(()),
        ExprV::Identifier(name) => if params_contain(params, name) {
            Ok(())
        } else {
            Err(SemanticErrorV::UndefinedVariable(name))
        },
        ExprV::Binary(l, op, r) => match spec_analyze_expr(*l, params) {
            Err(e) => Err(e),
            Ok(u) => spec_analyze_expr(*r, params),
        },
    }
}

/// The binding check of a whole function: its body against its
/// parameters.
pub open spec fn spec_analyze_function(f: FunctionV) -> Result<(), SemanticErrorV> {
    spec_analyze_expr(f.body, f.params)
}

/// Whether `name` equals one of `params`.
fn params_contain_exec(params: &Vec<String>, name: &String) -> (r: bool)
    ensures
        r == params_contain(params.deep_view(), name@),
{
    let n = params.len();
    let mut k: usize = 0;
    while k < n
        invariant
            n == params.len(),
            0 <= k <= n,
            forall|m: int| 0 <= m < k ==> params.deep_view()[m] != name@,
        decreases n - k,
    {
        let eq = params[k] == *name;
        proof {
            assert(params.deep_view()[k as int] == params@[k as int]@);
        }
        if eq {
            return true;
        }
        k = k + 1;
    }
    false
}

/// The binding check of one expression, mirroring
/// `spec_analyze_expr`.
fn check_expr(e: &Expr, params: &Vec<String>) -> (r: Result<(), SemanticError>)
    ensures
        match spec_analyze_expr(e@, params.deep_view()) {
            Ok(u) => r matches Ok(v),
            Err(err) => r matches Err(e2) && e2@ == err,
        },
    decreases e,
{
    match e {
        Expr::Number(n) => Ok(()),
        Expr::Identifier(name) => {
            if params_contain_exec(params, name) {
                Ok(())
            } else {
                Err(SemanticError::UndefinedVariable(name.clone()))
            }
        },
        Expr::Binary(l, op, r) => {
            match check_expr(&**l, params) {
                Err(e) => Err(e),
                Ok(u) => check_expr(&**r, params),
            }
        },
    }
}

/// The binder.  It holds no state: analysis is a pure walk of the
/// tree.
pub struct SemanticAnalyzer {}

impl SemanticAnalyzer {
    /// A fresh binder.
    pub fn new() -> (r: SemanticAnalyzer) {
        SemanticAnalyzer {  }
    }

    /// Checks that every identifier in the body of `f` names one of
    /// its parameters; returns the first unresolved identifier
    /// otherwise.
    pub fn analyze_function(&mut self, f: &Function) -> (r: Result<(), SemanticError>)
        ensures
            match spec_analyze_function(f@) {
                Ok(u) => r matches Ok(v),
                Err(err) => r matches Err(e2) && e2@ == err,
            },
    {
        check_expr(&f.body, &f.params)
    }
}

} // verus!
