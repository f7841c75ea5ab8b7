//! The IR emitter: lowers a bound function into a flat sequence of
//! operations for a code-generation backend.
//!
//! The emitter walks the body in post order.  Value ids are assigned
//! sequentially in emission order: first one `LoadParam` per declared
//! parameter, then one fresh id per constant load and per binary
//! operation, and finally a single `Return` of the body's id.  An
//! identifier reuses the `LoadParam` id of the parameter it names and
//! emits nothing.

use vstd::prelude::*;

use crate::lexer::{lemma_next_token_bounds, spec_next_token, TokenV};
use crate::parser::{
    clamp_pos, spec_expect, spec_lookahead, spec_parse_expr, spec_parse_factor, spec_parse_factor_rest,
    spec_parse_function, spec_parse_identifier, spec_parse_params, spec_parse_params_rest,
    spec_parse_primary, spec_parse_term, spec_parse_term_rest, BinOp, Expr, ExprV, Function,
    FunctionV,
};
use crate::semantic::{params_contain, spec_analyze_expr, spec_analyze_function, SemanticErrorV};

verus! {

/// One operation of the intermediate representation.  The first field
/// of each defining operation is the value id it defines.
#[derive(Debug, Clone, Copy, PartialEq, Eq, Structural)]
pub enum IrOp {
    /// `LoadConst(dest, value)`: `dest` holds the constant `value`.
    LoadConst(usize, i32),
    /// `LoadParam(dest, index)`: `dest` holds the parameter numbered
    /// `index` in declaration order.
    LoadParam(usize, usize),
    /// `BinOp(dest, op, lhs, rhs)`: `dest` holds `lhs op rhs`.
    BinOp(usize, BinOp, usize, usize),
    /// `Return(value)`: the function returns `value`.
    Return(usize),
}

/// Mathematical model of an operation, with unbounded ids.
pub enum IrOpV {
    LoadConst(int, int),
    LoadParam(int, int),
    BinOp(int, BinOp, int, int),
    Return(int),
}

impl View for IrOp {
    type V = IrOpV;

    open spec fn view(&self) -> IrOpV {
        match self {
            IrOp::LoadConst(d, v) => IrOpV::LoadConst(*d as int, *v as int),
            IrOp::LoadParam(d, ix) => IrOpV::LoadParam(*d as int, *ix as int),
            IrOp::BinOp(d, op, l, r) => IrOpV::BinOp(*d as int, *op, *l as int, *r as int),
            IrOp::Return(v) => IrOpV::Return(*v as int),
        }
    }
}

impl DeepView for IrOp {
    type V = IrOpV;

    open spec fn deep_view(&self) -> IrOpV {
        self.view()
    }
}

/// An emission failure: a tree with an unresolved identifier reached
/// the emitter, which is a contract breach by the stages before it,
/// not a user error.
#[derive(Debug)]
pub enum EmitError {
    /// The name that failed to resolve.
    InternalInvariantViolation(String),
}

/// Mathematical model of an emission failure.
pub enum EmitErrorV {
    InternalInvariantViolation(Seq<char>),
}

impl View for EmitError {
    type V = EmitErrorV;

    open spec fn view(&self) -> EmitErrorV {
        match self {
            EmitError::InternalInvariantViolation(s) => EmitErrorV::InternalInvariantViolation(
                s@,
            ),
        }
    }
}

/// The index of the first parameter named `name`.
pub open spec fn param_index(params: Seq<Seq<char>>, name: Seq<char>) -> int
    decreases params.len(),
{
    if params.len() == 0 {
        0
    } else if params[0] == name {
        0
    } else {
        1 + param_index(params.drop_first(), name)
    }
}

/// The number of fresh value ids emission of `e` consumes: one per
/// constant load and one per binary operation.
pub open spec fn fresh_count(e: ExprV) -> nat
    decreases e,
{
    match e {
        ExprV::Number(n) => 1,
        ExprV::Identifier(name) => 0,
        ExprV::Binary(l, op, r) => fresh_count(*l) + fresh_count(*r) + 1,
    }
}

/// Post-order emission of one expression: the operations it appends,
/// the id holding its value, and the next fresh id afterwards, given
/// that `next` is the first fresh id beforehand.
pub open spec fn spec_emit_expr(e: ExprV, params: Seq<Seq<char>>, next: int) -> (Seq<IrOpV>, int, int)
    decreases e,
{
    match e {
        ExprV::Number(n) => (seq![IrOpV::LoadConst(next, n)], next, next + 1),
        ExprV::Identifier(name) => (Seq::empty(), param_index(params, name), next),
        ExprV::Binary(l, op, r) => {
            let (lops, lid, n1) = spec_emit_expr(*l, params, next);
            let (rops, rid, n2) = spec_emit_expr(*r, params, n1);
            (lops + rops + seq![IrOpV::BinOp(n2, op, lid, rid)], n2, n2 + 1)
        },
    }
}

/// Emission of a whole function: one `LoadParam` per parameter, the
/// body in post order, and a final `Return` of the body's id.
pub open spec fn spec_emit(f: FunctionV) -> Seq<IrOpV> {
    let prelude = Seq::new(f.params.len(), |k: int| IrOpV::LoadParam(k, k));
    let (ops, dest, n2) = spec_emit_expr(f.body, f.params, f.params.len() as int);
    prelude + ops + seq![IrOpV::Return(dest)]
}

/// Emission consumes exactly `fresh_count(e)` fresh ids.
pub proof fn lemma_emit_next(e: ExprV, params: Seq<Seq<char>>, next: int)
    ensures
        spec_emit_expr(e, params, next).2 == next + fresh_count(e),
    decreases e,
{
    match e {
        ExprV::Binary(l, op, r) => {
            lemma_emit_next(*l, params, next);
            lemma_emit_next(*r, params, next + fresh_count(*l));
        },
        _ => {},
    }
}

/// Pushing onto a vector pushes its deep view.
pub proof fn lemma_deep_view_push<T: DeepView>(v1: Vec<T>, v2: Vec<T>, x: T)
    requires
        v2@ == v1@.push(x),
    ensures
        v2.deep_view() =~= v1.deep_view().push(x.deep_view()),
{
    assert forall|m: int| 0 <= m < v2.deep_view().len() implies v2.deep_view()[m]
        == v1.deep_view().push(x.deep_view())[m] by {
        if m < v1@.len() {
            assert(v2@[m] == v1@[m]);
        } else {
            assert(v2@[m] == x);
        }
    }
}

/// The index of the first parameter named `name`, found by a linear
/// search.
fn find_param(params: &Vec<String>, name: &String) -> (r: Option<usize>)
    ensures
        match r {
            Some(ix) => params_contain(params.deep_view(), name@) && ix as int == param_index(
                params.deep_view(),
                name@,
            ) && ix < params.len(),
            None => !params_contain(params.deep_view(), name@),
        },
{
    let n = params.len();
    let mut k: usize = 0;
    while k < n
        invariant
            n == params.len(),
            0 <= k <= n,
            forall|m: int| 0 <= m < k ==> params.deep_view()[m] != name@,
        decreases n - k,
    {
        let eq = params[k] == *name;
        proof {
            assert(params.deep_view()[k as int] == params@[k as int]@);
        }
        if eq {
            proof {
                lemma_param_index_first(params.deep_view(), name@, k as int);
            }
            return Some(k);
        }
        k = k + 1;
    }
    None
}

/// `param_index` finds the first occurrence.
pub proof fn lemma_param_index_first(params: Seq<Seq<char>>, name: Seq<char>, m: int)
    requires
        0 <= m < params.len(),
        params[m] == name,
        forall|k: int| 0 <= k < m ==> params[k] != name,
    ensures
        param_index(params, name) == m,
    decreases m,
{
    if m > 0 {
        let rest = params.drop_first();
        assert(forall|k: int| 0 <= k < m - 1 ==> rest[k] == params[k + 1]);
        lemma_param_index_first(rest, name, m - 1);
    }
}

/// Post-order emission of one expression, mirroring
/// `spec_emit_expr`: appends operations to `ops`, draws fresh ids
/// from `next`, and returns the id holding the value of `e`.
fn emit_expr(e: &Expr, params: &Vec<String>, ops: &mut Vec<IrOp>, next: &mut usize) -> (r: Result<
    usize,
    EmitError,
>)
    requires
        *old(next) + fresh_count(e@) <= usize::MAX,
    ensures
        ({
            let (sops, dest, n2) = spec_emit_expr(e@, params.deep_view(), *old(next) as int);
            match spec_analyze_expr(e@, params.deep_view()) {
                Ok(u) => r matches Ok(d) && d as int == dest && *final(next) as int == n2
                    && final(ops).deep_view() == old(ops).deep_view() + sops,
                Err(err) => r matches Err(e2) && (err matches SemanticErrorV::UndefinedVariable(nm)
                    && e2@ == EmitErrorV::InternalInvariantViolation(nm)),
            }
        }),
    decreases e,
{
    match e {
        Expr::Number(v) => {
            let id = *next;
            let ghost before = *ops;
            ops.push(IrOp::LoadConst(id, *v));
            *next = id + 1;
            proof {
                lemma_deep_view_push(before, *ops, IrOp::LoadConst(id, *v));
                assert(ops.deep_view() =~= old(ops).deep_view() + seq![
                    IrOpV::LoadConst(id as int, *v as int),
                ]);
            }
            Ok(id)
        },
        Expr::Identifier(name) => {
            match find_param(params, name) {
                Some(ix) => {
                    proof {
                        assert(ops.deep_view() =~= old(ops).deep_view() + Seq::<IrOpV>::empty());
                    }
                    Ok(ix)
                },
                None => Err(EmitError::InternalInvariantViolation(name.clone())),
            }
        },
        Expr::Binary(l, op, r) => {
            proof {
                lemma_emit_next((**l)@, params.deep_view(), *next as int);
            }
            let lid = match emit_expr(&**l, params, ops, next) {
                Err(e) => {
                    return Err(e);
                },
                Ok(x) => x,
            };
            proof {
                lemma_emit_next((**r)@, params.deep_view(), *next as int);
            }
            let rid = match emit_expr(&**r, params, ops, next) {
                Err(e) => {
                    return Err(e);
                },
                Ok(x) => x,
            };
            let id = *next;
            let ghost before = *ops;
            ops.push(IrOp::BinOp(id, *op, lid, rid));
            *next = id + 1;
            proof {
                let ps = params.deep_view();
                let (lops, lid_s, n1) = spec_emit_expr((**l)@, ps, *old(next) as int);
                let (rops, rid_s, n2s) = spec_emit_expr((**r)@, ps, n1);
                assert(e@ == ExprV::Binary(Box::new((**l)@), *op, Box::new((**r)@)));
                lemma_deep_view_push(before, *ops, IrOp::BinOp(id, *op, lid, rid));
                let (sops, dest, n2) = spec_emit_expr(e@, ps, *old(next) as int);
                assert(sops == lops + rops + seq![IrOpV::BinOp(n2s, *op, lid_s, rid_s)]);
                assert(ops.deep_view() =~= old(ops).deep_view() + sops);
            }
            Ok(id)
        },
    }
}

/// Emits the IR of a bound function: the `LoadParam` prelude, the
/// body in post order, and the final `Return`.  On a tree whose
/// identifiers do not all resolve it reports the first unresolved
/// name as an internal invariant violation.
pub fn emit(f: &Function) -> (r: Result<Vec<IrOp>, EmitError>)
    requires
        f@.params.len() + fresh_count(f@.body) <= usize::MAX,
    ensures
        match spec_analyze_function(f@) {
            Ok(u) => r matches Ok(ops) && ops.deep_view() == spec_emit(f@),
            Err(err) => r matches Err(e2) && (err matches SemanticErrorV::UndefinedVariable(nm)
                && e2@ == EmitErrorV::InternalInvariantViolation(nm)),
        },
{
    let n = f.params.len();
    let mut ops: Vec<IrOp> = Vec::new();
    let mut k: usize = 0;
    while k < n
        invariant
            0 <= k <= n,
            ops.deep_view() == Seq::new(k as nat, |m: int| IrOpV::LoadParam(m, m)),
        decreases n - k,
    {
        let ghost before = ops;
        let ghost pushed = IrOp::LoadParam(k, k);
        ops.push(IrOp::LoadParam(k, k));
        k = k + 1;
        proof {
            lemma_deep_view_push(before, ops, pushed);
            assert(ops.deep_view() =~= Seq::new(k as nat, |m: int| IrOpV::LoadParam(m, m)));
        }
    }
    let ghost prelude = Seq::new(f@.params.len(), |m: int| IrOpV::LoadParam(m, m));
    proof {
        assert(ops.deep_view() =~= prelude);
    }
    let mut next: usize = n;
    match emit_expr(&f.body, &f.params, &mut ops, &mut next) {
        Err(e) => Err(e),
        Ok(dest) => {
            let ghost before = ops;
            ops.push(IrOp::Return(dest));
            proof {
                lemma_deep_view_push(before, ops, IrOp::Return(dest));
                assert(ops.deep_view() =~= spec_emit(f@));
            }
            Ok(ops)
        },
    }
}

// ----------------------------------------------------------------------
// Size of what parsing yields
// ----------------------------------------------------------------------
//
// Every construct the parser accepts spans at least as many characters
// as the fresh ids its emission consumes, so the ids of a parsed
// function fit in the machine word that indexes its source text.

/// A successful primary parse moves strictly forward and yields a tree
/// that consumes at most one fresh id per character spanned.
pub proof fn lemma_size_primary(s: Seq<char>, i: int)
    requires
        0 <= i <= s.len(),
    ensures
        spec_parse_primary(s, i) matches Ok((e, p)) ==> i < p <= s.len() && fresh_count(e) <= p
            - i,
    decreases s.len() - clamp_pos(i, s.len() as int), 0int,
{
    lemma_next_token_bounds(s, i);
    match spec_next_token(s, i) {
        Ok((t, j)) => match t {
            TokenV::LParen => {
                if spec_lookahead(s, j) is Ok {
                    lemma_size_expr(s, j);
                    match spec_parse_expr(s, j) {
                        Ok((e0, p)) => {
                            lemma_next_token_bounds(s, p);
                        },
                        Err(e) => {},
                    }
                }
            },
            _ => {},
        },
        Err(e) => {},
    }
}

/// Folding more `*` and `/` applications onto `acc` never moves
/// backwards and adds at most one fresh id per character spanned.
pub proof fn lemma_size_factor_rest(s: Seq<char>, i: int, acc: ExprV)
    requires
        0 <= i <= s.len(),
    ensures
        spec_parse_factor_rest(s, i, acc) matches Ok((e, p)) ==> i <= p <= s.len()
            && fresh_count(e) <= fresh_count(acc) + (p - i),
    decreases s.len() - clamp_pos(i, s.len() as int), 1int,
{
    lemma_next_token_bounds(s, i);
    match spec_next_token(s, i) {
        Ok((t, j)) => {
            if t == TokenV::Star || t == TokenV::Slash {
                let op = if t == TokenV::Star {
                    BinOp::Mul
                } else {
                    BinOp::Div
                };
                if spec_lookahead(s, j) is Ok {
                    lemma_size_primary(s, j);
                    match spec_parse_primary(s, j) {
                        Ok((rhs, p1)) => {
                            lemma_size_factor_rest(
                                s,
                                p1,
                                ExprV::Binary(Box::new(acc), op, Box::new(rhs)),
                            );
                        },
                        Err(e) => {},
                    }
                }
            }
        },
        Err(e) => {},
    }
}

/// A successful factor parse moves strictly forward and yields a tree
/// that consumes at most one fresh id per character spanned.
pub proof fn lemma_size_factor(s: Seq<char>, i: int)
    requires
        0 <= i <= s.len(),
    ensures
        spec_parse_factor(s, i) matches Ok((e, p)) ==> i < p <= s.len() && fresh_count(e) <= p
            - i,
    decreases s.len() - clamp_pos(i, s.len() as int), 2int,
{
    lemma_size_primary(s, i);
    match spec_parse_primary(s, i) {
        Ok((e0, p0)) => {
            lemma_size_factor_rest(s, p0, e0);
        },
        Err(e) => {},
    }
}

/// Folding more `+` and `-` applications onto `acc` never moves
/// backwards and adds at most one fresh id per character spanned.
pub proof fn lemma_size_term_rest(s: Seq<char>, i: int, acc: ExprV)
    requires
        0 <= i <= s.len(),
    ensures
        spec_parse_term_rest(s, i, acc) matches Ok((e, p)) ==> i <= p <= s.len() && fresh_count(
            e,
        ) <= fresh_count(acc) + (p - i),
    decreases s.len() - clamp_pos(i, s.len() as int), 3int,
{
    lemma_next_token_bounds(s, i);
    match spec_next_token(s, i) {
        Ok((t, j)) => {
            if t == TokenV::Plus || t == TokenV::Minus {
                let op = if t == TokenV::Plus {
                    BinOp::Add
                } else {
                    BinOp::Sub
                };
                if spec_lookahead(s, j) is Ok {
                    lemma_size_factor(s, j);
                    match spec_parse_factor(s, j) {
                        Ok((rhs, p1)) => {
                            lemma_size_term_rest(
                                s,
                                p1,
                                ExprV::Binary(Box::new(acc), op, Box::new(rhs)),
                            );
                        },
                        Err(e) => {},
                    }
                }
            }
        },
        Err(e) => {},
    }
}

/// A successful term parse moves strictly forward and yields a tree
/// that consumes at most one fresh id per character spanned.
pub proof fn lemma_size_term(s: Seq<char>, i: int)
    requires
        0 <= i <= s.len(),
    ensures
        spec_parse_term(s, i) matches Ok((e, p)) ==> i < p <= s.len() && fresh_count(e) <= p - i,
    decreases s.len() - clamp_pos(i, s.len() as int), 4int,
{
    lemma_size_factor(s, i);
    match spec_parse_factor(s, i) {
        Ok((e0, p0)) => {
            lemma_size_term_rest(s, p0, e0);
        },
        Err(e) => {},
    }
}

/// A successful expression parse moves strictly forward and yields a
/// tree that consumes at most one fresh id per character spanned.
pub proof fn lemma_size_expr(s: Seq<char>, i: int)
    requires
        0 <= i <= s.len(),
    ensures
        spec_parse_expr(s, i) matches Ok((e, p)) ==> i < p <= s.len() && fresh_count(e) <= p - i,
    decreases s.len() - clamp_pos(i, s.len() as int), 5int,
{
    lemma_size_term(s, i);
}

/// Folding more parameter names onto `acc` never moves backwards and
/// adds at most one name per character spanned.
pub proof fn lemma_size_params_rest(s: Seq<char>, i: int, acc: Seq<Seq<char>>)
    requires
        0 <= i <= s.len(),
    ensures
        spec_parse_params_rest(s, i, acc) matches Ok((ps, p)) ==> i <= p <= s.len() && ps.len()
            <= acc.len() + (p - i),
    decreases s.len() - clamp_pos(i, s.len() as int),
{
    lemma_next_token_bounds(s, i);
    match spec_next_token(s, i) {
        Ok((t, j)) => {
            if t == TokenV::Comma {
                if spec_lookahead(s, j) is Ok {
                    lemma_next_token_bounds(s, j);
                    match spec_parse_identifier(s, j) {
                        Ok((name, p1)) => {
                            lemma_size_params_rest(s, p1, acc.push(name));
                        },
                        Err(e) => {},
                    }
                }
            }
        },
        Err(e) => {},
    }
}

/// A successful parameter-list parse never moves backwards and yields
/// at most one name per character spanned.
pub proof fn lemma_size_params(s: Seq<char>, i: int)
    requires
        0 <= i <= s.len(),
    ensures
        spec_parse_params(s, i) matches Ok((ps, p)) ==> i <= p <= s.len() && ps.len() <= p - i,
{
    lemma_next_token_bounds(s, i);
    match spec_next_token(s, i) {
        Ok((t, j)) => match t {
            TokenV::Identifier(nm) => {
                match spec_parse_identifier(s, i) {
                    Ok((name, p1)) => {
                        lemma_size_params_rest(s, p1, seq![name]);
                    },
                    Err(e) => {},
                }
            },
            _ => {},
        },
        Err(e) => {},
    }
}

/// A parsed function declares no more parameters and consumes no more
/// fresh ids than its source holds characters: value ids therefore fit
/// in the machine word that indexes the source.
pub proof fn lemma_size_function(s: Seq<char>, i: int)
    requires
        0 <= i <= s.len(),
    ensures
        spec_parse_function(s, i) matches Ok((f, p)) ==> f.params.len() + fresh_count(f.body)
            <= s.len(),
{
    lemma_next_token_bounds(s, i);
    match spec_expect(s, i, TokenV::Fn) {
        Err(e) => {},
        Ok(p1) => {
            lemma_next_token_bounds(s, p1);
            match spec_parse_identifier(s, p1) {
                Err(e) => {},
                Ok((name, p2)) => {
                    lemma_next_token_bounds(s, p2);
                    match spec_expect(s, p2, TokenV::LParen) {
                        Err(e) => {},
                        Ok(p3) => {
                            lemma_size_params(s, p3);
                            match spec_parse_params(s, p3) {
                                Err(e) => {},
                                Ok((params, p4)) => {
                                    lemma_next_token_bounds(s, p4);
                                    match spec_expect(s, p4, TokenV::RParen) {
                                        Err(e) => {},
                                        Ok(p5) => {
                                            lemma_next_token_bounds(s, p5);
                                            match spec_expect(s, p5, TokenV::LBrace) {
                                                Err(e) => {},
                                                Ok(p6) => {
                                                    lemma_size_expr(s, p6);
                                                },
                                            }
                                        },
                                    }
                                },
                            }
                        },
                    }
                },
            }
        },
    }
}

// ----------------------------------------------------------------------
// Well-formedness of the emitted sequence
// ----------------------------------------------------------------------

/// The invariants of an emitted sequence: every operation before the
/// last defines the value id equal to its own index (so each id is
/// defined exactly once, in order), a binary operation reads only ids
/// defined earlier, and a single `Return` of an earlier id terminates
/// the sequence.
pub open spec fn ir_wf(ops: Seq<IrOpV>) -> bool {
    &&& ops.len() >= 1
    &&& (forall|k: int|
        0 <= k < ops.len() - 1 ==> match #[trigger] ops[k] {
            IrOpV::LoadConst(d, v) => d == k,
            IrOpV::LoadParam(d, ix) => d == k,
            IrOpV::BinOp(d, op, l, r) => d == k && 0 <= l < k && 0 <= r < k,
            IrOpV::Return(v) => false,
        })
    &&& (ops.last() matches IrOpV::Return(v) && 0 <= v < ops.len() - 1)
}

/// The index of a contained name is a valid parameter index.
pub proof fn lemma_param_index_in_range(params: Seq<Seq<char>>, name: Seq<char>)
    requires
        params_contain(params, name),
    ensures
        0 <= param_index(params, name) < params.len(),
    decreases params.len(),
{
    if params.len() > 0 && params[0] != name {
        let rest = params.drop_first();
        let k = choose|k: int| 0 <= k < params.len() && params[k] == name;
        assert(rest[k - 1] == name);
        lemma_param_index_in_range(rest, name);
    }
}

/// The operations emitted for a bound expression define the ids
/// `next`, `next + 1`, ... in order, read only ids defined earlier or
/// parameter ids, and hand back a defined id.
pub proof fn lemma_emit_expr_wf(e: ExprV, params: Seq<Seq<char>>, next: int)
    requires
        spec_analyze_expr(e, params) is Ok,
        params.len() <= next,
    ensures
        ({
            let (ops, dest, n2) = spec_emit_expr(e, params, next);
            &&& n2 == next + fresh_count(e)
            &&& ops.len() == fresh_count(e)
            &&& 0 <= dest < n2
            &&& forall|k: int|
                0 <= k < ops.len() ==> match #[trigger] ops[k] {
                    IrOpV::LoadConst(d, v) => d == next + k,
                    IrOpV::LoadParam(d, ix) => false,
                    IrOpV::BinOp(d, op, l, r) => d == next + k && 0 <= l < next + k && 0 <= r
                        < next + k,
                    IrOpV::Return(v) => false,
                }
        }),
    decreases e,
{
    match e {
        ExprV::Number(n) => {},
        ExprV::Identifier(name) => {
            lemma_param_index_in_range(params, name);
        },
        ExprV::Binary(l, op, r) => {
            let (lops, lid, n1) = spec_emit_expr(*l, params, next);
            let (rops, rid, n2) = spec_emit_expr(*r, params, n1);
            lemma_emit_expr_wf(*l, params, next);
            lemma_emit_expr_wf(*r, params, n1);
            let ops = spec_emit_expr(e, params, next).0;
            assert(ops == lops + rops + seq![IrOpV::BinOp(n2, op, lid, rid)]);
            assert forall|k: int| 0 <= k < ops.len() implies match #[trigger] ops[k] {
                IrOpV::LoadConst(d, v) => d == next + k,
                IrOpV::LoadParam(d, ix) => false,
                IrOpV::BinOp(d, op2, l2, r2) => d == next + k && 0 <= l2 < next + k && 0 <= r2
                    < next + k,
                IrOpV::Return(v) => false,
            } by {
                if k < lops.len() {
                    assert(ops[k] == lops[k]);
                } else if k < lops.len() + rops.len() {
                    assert(ops[k] == rops[k - lops.len()]);
                } else {
                    assert(ops[k] == IrOpV::BinOp(n2, op, lid, rid));
                }
            }
        },
    }
}

/// The result guarantee of the emitter: on a bound function the
/// emitted sequence is well-formed, with ids assigned sequentially in
/// emission order, every reference pointing backwards, and exactly
/// one `Return` at the end.
pub proof fn lemma_emit_well_formed(f: FunctionV)
    requires
        spec_analyze_function(f) is Ok,
    ensures
        ir_wf(spec_emit(f)),
{
    let n = f.params.len() as int;
    let prelude = Seq::new(f.params.len(), |k: int| IrOpV::LoadParam(k, k));
    let (bops, dest, n2) = spec_emit_expr(f.body, f.params, n);
    lemma_emit_expr_wf(f.body, f.params, n);
    let ops = spec_emit(f);
    assert(ops == prelude + bops + seq![IrOpV::Return(dest)]);
    assert(ops.last() == IrOpV::Return(dest));
    assert forall|k: int| 0 <= k < ops.len() - 1 implies match #[trigger] ops[k] {
        IrOpV::LoadConst(d, v) => d == k,
        IrOpV::LoadParam(d, ix) => d == k,
        IrOpV::BinOp(d, op, l, r) => d == k && 0 <= l < k && 0 <= r < k,
        IrOpV::Return(v) => false,
    } by {
        if k < n {
            assert(ops[k] == prelude[k]);
        } else {
            assert(ops[k] == bops[k - n]);
        }
    }
}

} // verus!
