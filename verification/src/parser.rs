//! Recursive-descent parsing of one function definition.
//!
//! The grammar, with the loosest tier first:
//!
//! ```text
//! function := "fn" IDENT "(" params? ")" "{" expr "}"
//! params   := IDENT ("," IDENT)*
//! expr     := term
//! term     := factor (("+" | "-") factor)*      left-associative
//! factor   := primary (("*" | "/") primary)*    left-associative
//! primary  := NUMBER | IDENT | "(" expr ")"
//! ```
//!
//! Precedence is encoded structurally: `*` and `/` bind tighter than
//! `+` and `-`, and both tiers fold to the left, so `a - b - c` parses
//! as `(a - b) - c`.  The behaviour of the parser is specified by the
//! `spec_parse_*` functions, which walk the same grammar over the
//! character sequence of the input, reading tokens through
//! `spec_next_token`.

use vstd::prelude::*;

use crate::lexer::{
    all_digits, digit_val, digits_val, is_alpha_char, is_digit_char, is_num_char, is_punct_char,
    is_ws_char, lemma_lexer_bounds, lemma_next_token_bounds, num_end, number_token, punct_token,
    skip_ws, spec_next_token, LexError, LexErrorV, Lexer, Token, TokenV,
};

verus! {

/// A binary arithmetic operator.
#[derive(Debug, Clone, Copy, PartialEq, Eq, Structural)]
pub enum BinOp {
    Add,
    Sub,
    Mul,
    Div,
}

/// An expression tree.  Children are exclusively owned: the tree is
/// never shared or mutated after construction.
#[derive(Debug)]
pub enum Expr {
    Number(i32),
    Identifier(String),
    Binary(Box<Expr>, BinOp, Box<Expr>),
}

/// Mathematical model of an expression tree.
pub enum ExprV {
    Number(int),
    Identifier(Seq<char>),
    Binary(Box<ExprV>, BinOp, Box<ExprV>),
}

/// The model of an expression: same shape, identifier names as
/// character sequences and numbers as unbounded integers.
pub open spec fn expr_view(e: Expr) -> ExprV
    decreases e,
{
    match e {
        Expr::Number(n) => ExprV::Number(n as int),
        Expr::Identifier(s) => ExprV::Identifier(s@),
        Expr::Binary(l, op, r) => ExprV::Binary(
            Box::new(expr_view(*l)),
            op,
            Box::new(expr_view(*r)),
        ),
    }
}

impl View for Expr {
    type V = ExprV;

    open spec fn view(&self) -> ExprV {
        expr_view(*self)
    }
}

/// A single function definition: its name, its parameters in
/// declaration order, and its body expression.
#[derive(Debug)]
pub struct Function {
    pub name: String,
    pub params: Vec<String>,
    pub body: Expr,
}

/// Mathematical model of a function definition.
pub struct FunctionV {
    pub name: Seq<char>,
    pub params: Seq<Seq<char>>,
    pub body: ExprV,
}

impl View for Function {
    type V = FunctionV;

    open spec fn view(&self) -> FunctionV {
        FunctionV { name: self.name@, params: self.params.deep_view(), body: self.body@ }
    }
}

/// A parsing failure; parsing is all-or-nothing, so the first failure
/// aborts the compilation.
#[derive(Debug)]
pub enum ParseError {
    /// The current token does not match what the grammar expects at
    /// this position.
    UnexpectedToken { expected: Token, found: Token },
    /// An identifier was expected but a different token was found.
    ExpectedIdentifier { found: Token },
    /// The token stream itself failed to lex.
    Lex(LexError),
}

/// Mathematical model of a parsing failure.
pub enum ParseErrorV {
    UnexpectedToken { expected: TokenV, found: TokenV },
    ExpectedIdentifier { found: TokenV },
    Lex(LexErrorV),
}

impl View for ParseError {
    type V = ParseErrorV;

    open spec fn view(&self) -> ParseErrorV {
        match self {
            ParseError::UnexpectedToken { expected, found } => ParseErrorV::UnexpectedToken {
                expected: expected@,
                found: found@,
            },
            ParseError::ExpectedIdentifier { found } => ParseErrorV::ExpectedIdentifier {
                found: found@,
            },
            ParseError::Lex(e) => ParseErrorV::Lex(e@),
        }
    }
}

// ----------------------------------------------------------------------
// The specification parser
// ----------------------------------------------------------------------
//
// Each `spec_parse_*` function takes the position of the token the
// parser is looking at and returns the parsed construct together with
// the position of the first token after it.  The parser keeps one
// token of lookahead, so every step that consumes a token also checks
// that the token after it lexes; a lexing failure therefore surfaces
// at the step that consumes the token before it.
//
// Positions are clamped into the input by `clamp_pos` and forced
// forwards by `next_pos` purely so that each recursion has a
// terminating measure; at the positions the parser actually reaches
// the clamps are the identity.

/// `i` clamped into `[0, len]`.
pub open spec fn clamp_pos(i: int, len: int) -> int {
    if i < 0 {
        0
    } else if i > len {
        len
    } else {
        i
    }
}

/// `p` clamped into `[i + 1, len]`, the positions a parse step that
/// consumed at least one character can be at.
pub open spec fn next_pos(i: int, p: int, len: int) -> int {
    if i + 1 <= p && p <= len {
        p
    } else if i + 1 <= len {
        i + 1
    } else {
        len
    }
}

/// The position itself when the token after it lexes, else the lexing
/// failure, wrapped as a parsing failure.
pub open spec fn spec_lookahead(s: Seq<char>, j: int) -> Result<int, ParseErrorV> {
    match spec_next_token(s, j) {
        Ok(_) => Ok(j),
        Err(e) => Err(ParseErrorV::Lex(e)),
    }
}

/// Consuming the token at `i`, which must equal `t`.
pub open spec fn spec_expect(s: Seq<char>, i: int, t: TokenV) -> Result<int, ParseErrorV> {
    match spec_next_token(s, i) {
        Err(e) => Err(ParseErrorV::Lex(e)),
        Ok((found, j)) => if found == t {
            spec_lookahead(s, j)
        } else {
            Err(ParseErrorV::UnexpectedToken { expected: t, found })
        },
    }
}

/// Consuming the identifier at `i`.
pub open spec fn spec_parse_identifier(s: Seq<char>, i: int) -> Result<(Seq<char>, int), ParseErrorV> {
    match spec_next_token(s, i) {
        Err(e) => Err(ParseErrorV::Lex(e)),
        Ok((t, j)) => match t {
            TokenV::Identifier(name) => match spec_lookahead(s, j) {
                Ok(p) => Ok((name, p)),
                Err(e) => Err(e),
            },
            _ => Err(ParseErrorV::ExpectedIdentifier { found: t }),
        },
    }
}

/// Parsing a primary expression: a number, an identifier, or a
/// parenthesized expression.
pub open spec fn spec_parse_primary(s: Seq<char>, i: int) -> Result<(ExprV, int), ParseErrorV>
    decreases s.len() - clamp_pos(i, s.len() as int), 0int,
{
    let ii = clamp_pos(i, s.len() as int);
    match spec_next_token(s, ii) {
        Err(e) => Err(ParseErrorV::Lex(e)),
        Ok((t, j)) => match t {
            TokenV::Number(n) => match spec_lookahead(s, j) {
                Ok(p) => Ok((ExprV::Number(n), p)),
                Err(e) => Err(e),
            },
            TokenV::Identifier(x) => match spec_lookahead(s, j) {
                Ok(p) => Ok((ExprV::Identifier(x), p)),
                Err(e) => Err(e),
            },
            TokenV::LParen => match spec_lookahead(s, j) {
                Err(e) => Err(e),
                Ok(_) => match spec_parse_expr(s, next_pos(ii, j, s.len() as int)) {
                    Err(e) => Err(e),
                    Ok((e0, p)) => match spec_expect(s, p, TokenV::RParen) {
                        Ok(p2) => Ok((e0, p2)),
                        Err(e) => Err(e),
                    },
                },
            },
            _ => Err(ParseErrorV::UnexpectedToken { expected: TokenV::LParen, found: t }),
        },
    }
}

/// Folding further `*` and `/` applications onto `acc`.
pub open spec fn spec_parse_factor_rest(s: Seq<char>, i: int, acc: ExprV) -> Result<
    (ExprV, int),
    ParseErrorV,
>
    decreases s.len() - clamp_pos(i, s.len() as int), 1int,
{
    let ii = clamp_pos(i, s.len() as int);
    match spec_next_token(s, ii) {
        Err(e) => Err(ParseErrorV::Lex(e)),
        Ok((t, j)) => if t == TokenV::Star || t == TokenV::Slash {
            let op = if t == TokenV::Star {
                BinOp::Mul
            } else {
                BinOp::Div
            };
            match spec_lookahead(s, j) {
                Err(e) => Err(e),
                Ok(_) => match spec_parse_primary(s, next_pos(ii, j, s.len() as int)) {
                    Err(e) => Err(e),
                    Ok((rhs, p)) => spec_parse_factor_rest(
                        s,
                        next_pos(ii, p, s.len() as int),
                        ExprV::Binary(Box::new(acc), op, Box::new(rhs)),
                    ),
                },
            }
        } else {
            Ok((acc, ii))
        },
    }
}

/// Parsing a factor: a primary followed by `*` and `/` applications,
/// folded to the left.
pub open spec fn spec_parse_factor(s: Seq<char>, i: int) -> Result<(ExprV, int), ParseErrorV>
    decreases s.len() - clamp_pos(i, s.len() as int), 2int,
{
    let ii = clamp_pos(i, s.len() as int);
    match spec_parse_primary(s, ii) {
        Err(e) => Err(e),
        Ok((e0, p)) => spec_parse_factor_rest(s, next_pos(ii, p, s.len() as int), e0),
    }
}

/// Folding further `+` and `-` applications onto `acc`.
pub open spec fn spec_parse_term_rest(s: Seq<char>, i: int, acc: ExprV) -> Result<
    (ExprV, int),
    ParseErrorV,
>
    decreases s.len() - clamp_pos(i, s.len() as int), 3int,
{
    let ii = clamp_pos(i, s.len() as int);
    match spec_next_token(s, ii) {
        Err(e) => Err(ParseErrorV::Lex(e)),
        Ok((t, j)) => if t == TokenV::Plus || t == TokenV::Minus {
            let op = if t == TokenV::Plus {
                BinOp::Add
            } else {
                BinOp::Sub
            };
            match spec_lookahead(s, j) {
                Err(e) => Err(e),
                Ok(_) => match spec_parse_factor(s, next_pos(ii, j, s.len() as int)) {
                    Err(e) => Err(e),
                    Ok((rhs, p)) => spec_parse_term_rest(
                        s,
                        next_pos(ii, p, s.len() as int),
                        ExprV::Binary(Box::new(acc), op, Box::new(rhs)),
                    ),
                },
            }
        } else {
            Ok((acc, ii))
        },
    }
}

/// Parsing a term: a factor followed by `+` and `-` applications,
/// folded to the left.
pub open spec fn spec_parse_term(s: Seq<char>, i: int) -> Result<(ExprV, int), ParseErrorV>
    decreases s.len() - clamp_pos(i, s.len() as int), 4int,
{
    let ii = clamp_pos(i, s.len() as int);
    match spec_parse_factor(s, ii) {
        Err(e) => Err(e),
        Ok((e0, p)) => spec_parse_term_rest(s, next_pos(ii, p, s.len() as int), e0),
    }
}

/// Parsing an expression, which is a term.
pub open spec fn spec_parse_expr(s: Seq<char>, i: int) -> Result<(ExprV, int), ParseErrorV>
    decreases s.len() - clamp_pos(i, s.len() as int), 5int,
{
    spec_parse_term(s, clamp_pos(i, s.len() as int))
}

/// Folding further `,`-separated parameter names onto `acc`.
pub open spec fn spec_parse_params_rest(s: Seq<char>, i: int, acc: Seq<Seq<char>>) -> Result<
    (Seq<Seq<char>>, int),
    ParseErrorV,
>
    decreases s.len() - clamp_pos(i, s.len() as int),
{
    let ii = clamp_pos(i, s.len() as int);
    match spec_next_token(s, ii) {
        Err(e) => Err(ParseErrorV::Lex(e)),
        Ok((t, j)) => if t == TokenV::Comma {
            match spec_lookahead(s, j) {
                Err(e) => Err(e),
                Ok(_) => match spec_parse_identifier(s, next_pos(ii, j, s.len() as int)) {
                    Err(e) => Err(e),
                    Ok((name, p)) => spec_parse_params_rest(
                        s,
                        next_pos(ii, p, s.len() as int),
                        acc.push(name),
                    ),
                },
            }
        } else {
            Ok((acc, ii))
        },
    }
}

/// Parsing the parameter list: empty, or identifiers separated by
/// commas.
pub open spec fn spec_parse_params(s: Seq<char>, i: int) -> Result<
    (Seq<Seq<char>>, int),
    ParseErrorV,
> {
    let ii = clamp_pos(i, s.len() as int);
    match spec_next_token(s, ii) {
        Err(e) => Err(ParseErrorV::Lex(e)),
        Ok((t, j)) => match t {
            TokenV::Identifier(_) => match spec_parse_identifier(s, ii) {
                Err(e) => Err(e),
                Ok((name, p)) => spec_parse_params_rest(
                    s,
                    next_pos(ii, p, s.len() as int),
                    seq![name],
                ),
            },
            _ => Ok((Seq::empty(), ii)),
        },
    }
}

/// Parsing one whole function definition starting at `i`.
pub open spec fn spec_parse_function(s: Seq<char>, i: int) -> Result<(FunctionV, int), ParseErrorV> {
    match spec_expect(s, i, TokenV::Fn) {
        Err(e) => Err(e),
        Ok(p1) => match spec_parse_identifier(s, p1) {
            Err(e) => Err(e),
            Ok((name, p2)) => match spec_expect(s, p2, TokenV::LParen) {
                Err(e) => Err(e),
                Ok(p3) => match spec_parse_params(s, p3) {
                    Err(e) => Err(e),
                    Ok((params, p4)) => match spec_expect(s, p4, TokenV::RParen) {
                        Err(e) => Err(e),
                        Ok(p5) => match spec_expect(s, p5, TokenV::LBrace) {
                            Err(e) => Err(e),
                            Ok(p6) => match spec_parse_expr(s, p6) {
                                Err(e) => Err(e),
                                Ok((body, p7)) => match spec_expect(s, p7, TokenV::RBrace) {
                                    Err(e) => Err(e),
                                    Ok(p8) => Ok((FunctionV { name, params, body }, p8)),
                                },
                            },
                        },
                    },
                },
            },
        },
    }
}

// ----------------------------------------------------------------------
// The executable parser
// ----------------------------------------------------------------------

/// A recursive-descent parser over a lexer, holding one token of
/// lookahead.
pub struct Parser<'a> {
    lexer: Lexer<'a>,
    current_token: Result<Token, LexError>,
    start: Ghost<int>,
}

impl<'a> Parser<'a> {
    /// The character sequence being parsed.
    pub closed spec fn src(self) -> Seq<char> {
        self.lexer.src()
    }

    /// The start position of the current token.
    pub closed spec fn pos(self) -> int {
        self.start@
    }

    /// The position just past the current token, where the next token
    /// will be read.
    pub closed spec fn tok_end(self) -> int {
        self.lexer.pos()
    }

    /// The current token lexed successfully.
    pub closed spec fn cur_ok(self) -> bool {
        self.current_token is Ok
    }

    /// The parser state is consistent: the stored token is exactly
    /// what tokenization yields at `pos()`, and the lexer stands just
    /// past it.
    pub closed spec fn wf(self) -> bool {
        &&& self.lexer.wf()
        &&& 0 <= self.start@ <= self.src().len()
        &&& match spec_next_token(self.src(), self.start@) {
            Ok((t, j)) => (self.current_token matches Ok(ct) && ct@ == t) && self.lexer.pos()
                == j,
            Err(e) => self.current_token matches Err(ce) && ce@ == e,
        }
    }

    /// A parser over `lexer`, with the first token already read.
    pub fn new(lexer: Lexer<'a>) -> (r: Parser<'a>)
        requires
            lexer.wf(),
        ensures
            r.wf(),
            r.src() == lexer.src(),
            r.pos() == lexer.pos(),
    {
        proof {
            lemma_lexer_bounds(lexer);
        }
        let ghost start = lexer.pos();
        let mut lx = lexer;
        let current = lx.next_token();
        Parser { lexer: lx, current_token: current, start: Ghost(start) }
    }

    /// Reads the next token, making it current.
    fn advance(&mut self) -> (r: Result<(), ParseError>)
        requires
            old(self).wf(),
            old(self).cur_ok(),
        ensures
            final(self).wf(),
            final(self).src() == old(self).src(),
            match spec_lookahead(old(self).src(), old(self).tok_end()) {
                Ok(p) => r matches Ok(u) && final(self).pos() == p && final(self).cur_ok(),
                Err(e) => r matches Err(err) && err@ == e,
            },
    {
        proof {
            lemma_next_token_bounds(self.src(), self.start@);
        }
        let ghost j = self.lexer.pos();
        let t = self.lexer.next_token();
        self.start = Ghost(j);
        self.current_token = t;
        match &self.current_token {
            Ok(u) => Ok(()),
            Err(e) => Err(ParseError::Lex(*e)),
        }
    }

    /// Consumes the current token, which must equal `expected`.
    fn expect_token(&mut self, expected: Token) -> (r: Result<(), ParseError>)
        requires
            old(self).wf(),
        ensures
            final(self).wf(),
            final(self).src() == old(self).src(),
            match spec_expect(old(self).src(), old(self).pos(), expected@) {
                Ok(p) => r matches Ok(u) && final(self).pos() == p && final(self).cur_ok(),
                Err(e) => r matches Err(err) && err@ == e,
            },
    {
        match &self.current_token {
            Err(e) => Err(ParseError::Lex(*e)),
            Ok(t) => {
                if *t == expected {
                    self.advance()
                } else {
                    Err(ParseError::UnexpectedToken { expected, found: t.clone() })
                }
            },
        }
    }

    /// Consumes the current token, which must be an identifier, and
    /// returns its name.
    fn parse_identifier(&mut self) -> (r: Result<String, ParseError>)
        requires
            old(self).wf(),
        ensures
            final(self).wf(),
            final(self).src() == old(self).src(),
            match spec_parse_identifier(old(self).src(), old(self).pos()) {
                Ok((name, p)) => r matches Ok(nm) && nm@ == name && final(self).pos() == p
                    && final(self).cur_ok() && old(self).pos() < p <= old(self).src().len(),
                Err(e) => r matches Err(err) && err@ == e,
            },
    {
        proof {
            lemma_next_token_bounds(self.src(), self.start@);
        }
        match &self.current_token {
            Err(e) => Err(ParseError::Lex(*e)),
            Ok(t) => match t {
                Token::Identifier(name) => {
                    let nm = name.clone();
                    match self.advance() {
                        Err(e) => Err(e),
                        Ok(u) => Ok(nm),
                    }
                },
                _ => Err(ParseError::ExpectedIdentifier { found: t.clone() }),
            },
        }
    }

    /// Parses a primary expression: a number, an identifier, or a
    /// parenthesized expression.
    fn parse_primary(&mut self) -> (r: Result<Expr, ParseError>)
        requires
            old(self).wf(),
        ensures
            final(self).wf(),
            final(self).src() == old(self).src(),
            match spec_parse_primary(old(self).src(), old(self).pos()) {
                Ok((e, p)) => r matches Ok(ex) && ex@ == e && final(self).pos() == p && final(self).cur_ok() && old(self).pos() < p <= old(self).src().len(),
                Err(err) => r matches Err(e2) && e2@ == err,
            },
        decreases self.src().len() - self.pos(), 0int,
    {
        proof {
            lemma_next_token_bounds(self.src(), self.start@);
        }
        match &self.current_token {
            Err(e) => Err(ParseError::Lex(*e)),
            Ok(t) => match t {
                Token::Number(n) => {
                    let v = *n;
                    match self.advance() {
                        Err(e) => Err(e),
                        Ok(u) => Ok(Expr::Number(v)),
                    }
                },
                Token::Identifier(name) => {
                    let nm = name.clone();
                    match self.advance() {
                        Err(e) => Err(e),
                        Ok(u) => Ok(Expr::Identifier(nm)),
                    }
                },
                Token::LParen => {
                    match self.advance() {
                        Err(e) => Err(e),
                        Ok(u) => match self.parse_expr() {
                            Err(e) => Err(e),
                            Ok(inner) => {
                                proof {
                                    lemma_next_token_bounds(self.src(), self.start@);
                                }
                                match self.expect_token(Token::RParen) {
                                    Err(e) => Err(e),
                                    Ok(u2) => Ok(inner),
                                }
                            },
                        },
                    }
                },
                _ => Err(ParseError::UnexpectedToken { expected: Token::LParen, found: t.clone() }),
            },
        }
    }

    /// Parses a factor: a primary folded to the left with `*` and `/`.
    fn parse_factor(&mut self) -> (r: Result<Expr, ParseError>)
        requires
            old(self).wf(),
        ensures
            final(self).wf(),
            final(self).src() == old(self).src(),
            match spec_parse_factor(old(self).src(), old(self).pos()) {
                Ok((e, p)) => r matches Ok(ex) && ex@ == e && final(self).pos() == p && final(self).cur_ok() && old(self).pos() < p <= old(self).src().len(),
                Err(err) => r matches Err(e2) && e2@ == err,
            },
        decreases self.src().len() - self.pos(), 2int,
    {
        let mut node = match self.parse_primary() {
            Err(e) => {
                return Err(e);
            },
            Ok(x) => x,
        };
        loop
            invariant
                self.wf(),
                self.src() == old(self).src(),
                self.cur_ok(),
                old(self).pos() < self.pos() <= self.src().len(),
                spec_parse_factor(old(self).src(), old(self).pos()) == spec_parse_factor_rest(
                    self.src(),
                    self.pos(),
                    node@,
                ),
            ensures
                self.wf(),
                self.src() == old(self).src(),
                self.cur_ok(),
                old(self).pos() < self.pos() <= self.src().len(),
                spec_parse_factor(old(self).src(), old(self).pos()) == Ok::<_, ParseErrorV>(
                    (node@, self.pos()),
                ),
            decreases self.src().len() - self.pos(),
        {
            proof {
                lemma_next_token_bounds(self.src(), self.start@);
            }
            let op: BinOp = match &self.current_token {
                Err(e) => {
                    return Err(ParseError::Lex(*e));
                },
                Ok(t) => match t {
                    Token::Star => BinOp::Mul,
                    Token::Slash => BinOp::Div,
                    _ => {
                        break ;
                    },
                },
            };
            match self.advance() {
                Err(e) => {
                    return Err(e);
                },
                Ok(u) => {},
            }
            let rhs = match self.parse_primary() {
                Err(e) => {
                    return Err(e);
                },
                Ok(x) => x,
            };
            node = Expr::Binary(Box::new(node), op, Box::new(rhs));
        }
        Ok(node)
    }

    /// Parses a term: a factor folded to the left with `+` and `-`.
    fn parse_term(&mut self) -> (r: Result<Expr, ParseError>)
        requires
            old(self).wf(),
        ensures
            final(self).wf(),
            final(self).src() == old(self).src(),
            match spec_parse_term(old(self).src(), old(self).pos()) {
                Ok((e, p)) => r matches Ok(ex) && ex@ == e && final(self).pos() == p && final(self).cur_ok() && old(self).pos() < p <= old(self).src().len(),
                Err(err) => r matches Err(e2) && e2@ == err,
            },
        decreases self.src().len() - self.pos(), 4int,
    {
        let mut node = match self.parse_factor() {
            Err(e) => {
                return Err(e);
            },
            Ok(x) => x,
        };
        loop
            invariant
                self.wf(),
                self.src() == old(self).src(),
                self.cur_ok(),
                old(self).pos() < self.pos() <= self.src().len(),
                spec_parse_term(old(self).src(), old(self).pos()) == spec_parse_term_rest(
                    self.src(),
                    self.pos(),
                    node@,
                ),
            ensures
                self.wf(),
                self.src() == old(self).src(),
                self.cur_ok(),
                old(self).pos() < self.pos() <= self.src().len(),
                spec_parse_term(old(self).src(), old(self).pos()) == Ok::<_, ParseErrorV>(
                    (node@, self.pos()),
                ),
            decreases self.src().len() - self.pos(),
        {
            proof {
                lemma_next_token_bounds(self.src(), self.start@);
            }
            let op: BinOp = match &self.current_token {
                Err(e) => {
                    return Err(ParseError::Lex(*e));
                },
                Ok(t) => match t {
                    Token::Plus => BinOp::Add,
                    Token::Minus => BinOp::Sub,
                    _ => {
                        break ;
                    },
                },
            };
            match self.advance() {
                Err(e) => {
                    return Err(e);
                },
                Ok(u) => {},
            }
            let rhs = match self.parse_factor() {
                Err(e) => {
                    return Err(e);
                },
                Ok(x) => x,
            };
            node = Expr::Binary(Box::new(node), op, Box::new(rhs));
        }
        Ok(node)
    }

    /// Parses an expression, which is a term.
    fn parse_expr(&mut self) -> (r: Result<Expr, ParseError>)
        requires
            old(self).wf(),
        ensures
            final(self).wf(),
            final(self).src() == old(self).src(),
            match spec_parse_expr(old(self).src(), old(self).pos()) {
                Ok((e, p)) => r matches Ok(ex) && ex@ == e && final(self).pos() == p && final(self).cur_ok() && old(self).pos() < p <= old(self).src().len(),
                Err(err) => r matches Err(e2) && e2@ == err,
            },
        decreases self.src().len() - self.pos(), 5int,
    {
        self.parse_term()
    }

    /// Parses the parameter list: empty, or identifiers separated by
    /// commas.
    fn parse_params(&mut self) -> (r: Result<Vec<String>, ParseError>)
        requires
            old(self).wf(),
        ensures
            final(self).wf(),
            final(self).src() == old(self).src(),
            match spec_parse_params(old(self).src(), old(self).pos()) {
                Ok((ps, p)) => r matches Ok(v) && v.deep_view() == ps && final(self).pos() == p
                    && final(self).cur_ok() && old(self).pos() <= p <= old(self).src().len(),
                Err(err) => r matches Err(e2) && e2@ == err,
            },
    {
        match &self.current_token {
            Err(e) => {
                return Err(ParseError::Lex(*e));
            },
            Ok(t) => match t {
                Token::Identifier(name) => {},
                _ => {
                    let empty: Vec<String> = Vec::new();
                    proof {
                        assert(empty.deep_view() =~= Seq::<Seq<char>>::empty());
                    }
                    return Ok(empty);
                },
            },
        }
        proof {
            lemma_next_token_bounds(self.src(), self.start@);
        }
        let first = match self.parse_identifier() {
            Err(e) => {
                return Err(e);
            },
            Ok(x) => x,
        };
        let mut params: Vec<String> = Vec::new();
        params.push(first);
        proof {
            assert(params.deep_view() =~= seq![params@[0]@]);
        }
        loop
            invariant
                self.wf(),
                self.src() == old(self).src(),
                self.cur_ok(),
                old(self).pos() < self.pos() <= self.src().len(),
                spec_parse_params(old(self).src(), old(self).pos()) == spec_parse_params_rest(
                    self.src(),
                    self.pos(),
                    params.deep_view(),
                ),
            ensures
                self.wf(),
                self.src() == old(self).src(),
                self.cur_ok(),
                old(self).pos() < self.pos() <= self.src().len(),
                spec_parse_params(old(self).src(), old(self).pos()) == Ok::<_, ParseErrorV>(
                    (params.deep_view(), self.pos()),
                ),
            decreases self.src().len() - self.pos(),
        {
            proof {
                lemma_next_token_bounds(self.src(), self.start@);
            }
            match &self.current_token {
                Err(e) => {
                    return Err(ParseError::Lex(*e));
                },
                Ok(t) => match t {
                    Token::Comma => {},
                    _ => {
                        break ;
                    },
                },
            }
            match self.advance() {
                Err(e) => {
                    return Err(e);
                },
                Ok(u) => {},
            }
            let ghost before = params.deep_view();
            let nm = match self.parse_identifier() {
                Err(e) => {
                    return Err(e);
                },
                Ok(x) => x,
            };
            params.push(nm);
            proof {
                assert(params.deep_view() =~= before.push(params@.last()@));
            }
        }
        Ok(params)
    }

    /// Parses one whole function definition: `fn`, the name, the
    /// parenthesized parameter list, and the braced body expression.
    pub fn parse_function(&mut self) -> (r: Result<Function, ParseError>)
        requires
            old(self).wf(),
        ensures
            final(self).wf(),
            final(self).src() == old(self).src(),
            match spec_parse_function(old(self).src(), old(self).pos()) {
                Ok((f, p)) => r matches Ok(func) && func@ == f && final(self).pos() == p,
                Err(err) => r matches Err(e2) && e2@ == err,
            },
    {
        match self.expect_token(Token::Fn) {
            Err(e) => {
                return Err(e);
            },
            Ok(u) => {},
        }
        let name = match self.parse_identifier() {
            Err(e) => {
                return Err(e);
            },
            Ok(x) => x,
        };
        match self.expect_token(Token::LParen) {
            Err(e) => {
                return Err(e);
            },
            Ok(u) => {},
        }
        let params = match self.parse_params() {
            Err(e) => {
                return Err(e);
            },
            Ok(x) => x,
        };
        match self.expect_token(Token::RParen) {
            Err(e) => {
                return Err(e);
            },
            Ok(u) => {},
        }
        match self.expect_token(Token::LBrace) {
            Err(e) => {
                return Err(e);
            },
            Ok(u) => {},
        }
        let body = match self.parse_expr() {
            Err(e) => {
                return Err(e);
            },
            Ok(x) => x,
        };
        match self.expect_token(Token::RBrace) {
            Err(e) => {
                return Err(e);
            },
            Ok(u) => {},
        }
        Ok(Function { name, params, body })
    }
}

// ----------------------------------------------------------------------
// Precedence and associativity of three-operand expressions
// ----------------------------------------------------------------------

/// A binary operator character.
pub open spec fn is_op_char(c: char) -> bool {
    c == '+' || c == '-' || c == '*' || c == '/'
}

/// The operator a character denotes.
pub open spec fn op_of_char(c: char) -> BinOp
    recommends
        is_op_char(c),
{
    if c == '+' {
        BinOp::Add
    } else if c == '-' {
        BinOp::Sub
    } else if c == '*' {
        BinOp::Mul
    } else {
        BinOp::Div
    }
}

/// A single digit not followed by more number characters lexes as the
/// number it denotes.
proof fn lemma_single_digit_token(s: Seq<char>, i: int)
    requires
        0 <= i < s.len(),
        is_digit_char(s[i]),
        i + 1 == s.len() || !is_num_char(s[i + 1]),
    ensures
        spec_next_token(s, i) == Ok::<(TokenV, int), LexErrorV>(
            (TokenV::Number(digit_val(s[i]) as int), i + 1),
        ),
{
    assert(!is_ws_char(s[i]));
    assert(skip_ws(s, i) == i);
    assert(!is_punct_char(s[i]));
    assert(!is_alpha_char(s[i]));
    assert(num_end(s, i + 1) == i + 1);
    assert(num_end(s, i) == i + 1);
    let w = s.subrange(i, i + 1);
    assert(w =~= seq![s[i]]);
    assert(w.drop_last() =~= Seq::<char>::empty());
    assert(digits_val(Seq::<char>::empty()) == 0);
    assert(digits_val(w) == digit_val(s[i]));
    assert(all_digits(w));
    assert(digit_val(s[i]) <= 9);
    assert(number_token(w, i) == Ok::<TokenV, LexErrorV>(TokenV::Number(digit_val(s[i]) as int)));
}

/// An operator character lexes as its operator token.
proof fn lemma_op_char_token(s: Seq<char>, i: int)
    requires
        0 <= i < s.len(),
        is_op_char(s[i]),
    ensures
        spec_next_token(s, i) == Ok::<(TokenV, int), LexErrorV>((punct_token(s[i]), i + 1)),
        s[i] == '+' ==> punct_token(s[i]) == TokenV::Plus,
        s[i] == '-' ==> punct_token(s[i]) == TokenV::Minus,
        s[i] == '*' ==> punct_token(s[i]) == TokenV::Star,
        s[i] == '/' ==> punct_token(s[i]) == TokenV::Slash,
{
    assert(!is_ws_char(s[i]));
    assert(skip_ws(s, i) == i);
    assert(is_punct_char(s[i]));
}

/// The end of the input lexes as `EOF`, at the same position.
proof fn lemma_eof_token(s: Seq<char>, i: int)
    requires
        i == s.len(),
    ensures
        spec_next_token(s, i) == Ok::<(TokenV, int), LexErrorV>((TokenV::EOF, i)),
{
    assert(skip_ws(s, i) == i);
}

/// Precedence and associativity for every three-operand source
/// `a o1 b o2 c` over single digits: `*` and `/` bind tighter than
/// `+` and `-`, and operators of one tier group to the left.  The
/// parse groups to the right exactly when the first operator is
/// additive and the second multiplicative.
pub proof fn lemma_precedence_two_operators(a: char, o1: char, b: char, o2: char, c: char)
    requires
        is_digit_char(a),
        is_digit_char(b),
        is_digit_char(c),
        is_op_char(o1),
        is_op_char(o2),
    ensures
        ({
            let s = seq![a, o1, b, o2, c];
            let ea = ExprV::Number(digit_val(a) as int);
            let eb = ExprV::Number(digit_val(b) as int);
            let ec = ExprV::Number(digit_val(c) as int);
            let p1 = op_of_char(o1);
            let p2 = op_of_char(o2);
            spec_parse_expr(s, 0) == Ok::<(ExprV, int), ParseErrorV>(
                (
                    if (o1 == '+' || o1 == '-') && (o2 == '*' || o2 == '/') {
                        ExprV::Binary(
                            Box::new(ea),
                            p1,
                            Box::new(ExprV::Binary(Box::new(eb), p2, Box::new(ec))),
                        )
                    } else {
                        ExprV::Binary(
                            Box::new(ExprV::Binary(Box::new(ea), p1, Box::new(eb))),
                            p2,
                            Box::new(ec),
                        )
                    },
                    5,
                ),
            )
        }),
{
    let s = seq![a, o1, b, o2, c];
    let ea = ExprV::Number(digit_val(a) as int);
    let eb = ExprV::Number(digit_val(b) as int);
    let ec = ExprV::Number(digit_val(c) as int);
    let p1 = op_of_char(o1);
    let p2 = op_of_char(o2);
    assert(s.len() == 5);
    assert(s[0] == a && s[1] == o1 && s[2] == b && s[3] == o2 && s[4] == c);
    assert(!is_num_char(o1) && !is_num_char(o2));
    lemma_single_digit_token(s, 0);
    lemma_op_char_token(s, 1);
    lemma_single_digit_token(s, 2);
    lemma_op_char_token(s, 3);
    lemma_single_digit_token(s, 4);
    lemma_eof_token(s, 5);
    let t1 = punct_token(o1);
    let t2 = punct_token(o2);
    assert(spec_parse_primary(s, 0) == Ok::<(ExprV, int), ParseErrorV>((ea, 1)));
    assert(spec_parse_primary(s, 2) == Ok::<(ExprV, int), ParseErrorV>((eb, 3)));
    assert(spec_parse_primary(s, 4) == Ok::<(ExprV, int), ParseErrorV>((ec, 5)));
    if o1 == '*' || o1 == '/' {
        let ab = ExprV::Binary(Box::new(ea), p1, Box::new(eb));
        assert(spec_parse_factor_rest(s, 3, ab) == spec_parse_factor_rest(s, 1, ea));
        if o2 == '*' || o2 == '/' {
            let abc = ExprV::Binary(Box::new(ab), p2, Box::new(ec));
            assert(spec_parse_factor_rest(s, 5, abc) == Ok::<(ExprV, int), ParseErrorV>((abc, 5)));
            assert(spec_parse_factor(s, 0) == Ok::<(ExprV, int), ParseErrorV>((abc, 5)));
            assert(spec_parse_term_rest(s, 5, abc) == Ok::<(ExprV, int), ParseErrorV>((abc, 5)));
            assert(spec_parse_term(s, 0) == Ok::<(ExprV, int), ParseErrorV>((abc, 5)));
        } else {
            let abc = ExprV::Binary(Box::new(ab), p2, Box::new(ec));
            assert(spec_parse_factor_rest(s, 3, ab) == Ok::<(ExprV, int), ParseErrorV>((ab, 3)));
            assert(spec_parse_factor(s, 0) == Ok::<(ExprV, int), ParseErrorV>((ab, 3)));
            assert(spec_parse_factor_rest(s, 5, ec) == Ok::<(ExprV, int), ParseErrorV>((ec, 5)));
            assert(spec_parse_factor(s, 4) == Ok::<(ExprV, int), ParseErrorV>((ec, 5)));
            assert(spec_parse_term_rest(s, 5, abc) == Ok::<(ExprV, int), ParseErrorV>((abc, 5)));
            assert(spec_parse_term_rest(s, 3, ab) == Ok::<(ExprV, int), ParseErrorV>((abc, 5)));
            assert(spec_parse_term(s, 0) == Ok::<(ExprV, int), ParseErrorV>((abc, 5)));
        }
    } else {
        assert(spec_parse_factor_rest(s, 1, ea) == Ok::<(ExprV, int), ParseErrorV>((ea, 1)));
        assert(spec_parse_factor(s, 0) == Ok::<(ExprV, int), ParseErrorV>((ea, 1)));
        if o2 == '*' || o2 == '/' {
            let bc = ExprV::Binary(Box::new(eb), p2, Box::new(ec));
            let abc = ExprV::Binary(Box::new(ea), p1, Box::new(bc));
            assert(spec_parse_factor_rest(s, 5, bc) == Ok::<(ExprV, int), ParseErrorV>((bc, 5)));
            assert(spec_parse_factor_rest(s, 3, eb) == Ok::<(ExprV, int), ParseErrorV>((bc, 5)));
            assert(spec_parse_factor(s, 2) == Ok::<(ExprV, int), ParseErrorV>((bc, 5)));
            assert(spec_parse_term_rest(s, 5, abc) == Ok::<(ExprV, int), ParseErrorV>((abc, 5)));
            assert(spec_parse_term_rest(s, 1, ea) == Ok::<(ExprV, int), ParseErrorV>((abc, 5)));
            assert(spec_parse_term(s, 0) == Ok::<(ExprV, int), ParseErrorV>((abc, 5)));
        } else {
            let ab = ExprV::Binary(Box::new(ea), p1, Box::new(eb));
            let abc = ExprV::Binary(Box::new(ab), p2, Box::new(ec));
            assert(spec_parse_factor_rest(s, 3, eb) == Ok::<(ExprV, int), ParseErrorV>((eb, 3)));
            assert(spec_parse_factor(s, 2) == Ok::<(ExprV, int), ParseErrorV>((eb, 3)));
            assert(spec_parse_factor_rest(s, 5, ec) == Ok::<(ExprV, int), ParseErrorV>((ec, 5)));
            assert(spec_parse_factor(s, 4) == Ok::<(ExprV, int), ParseErrorV>((ec, 5)));
            assert(spec_parse_term_rest(s, 5, abc) == Ok::<(ExprV, int), ParseErrorV>((abc, 5)));
            assert(spec_parse_term_rest(s, 3, ab) == Ok::<(ExprV, int), ParseErrorV>((abc, 5)));
            assert(spec_parse_term_rest(s, 1, ea) == Ok::<(ExprV, int), ParseErrorV>((abc, 5)));
            assert(spec_parse_term(s, 0) == Ok::<(ExprV, int), ParseErrorV>((abc, 5)));
        }
    }
}

} // verus!
