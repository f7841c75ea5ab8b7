//! Lexical analysis: turns source text into a lazy stream of tokens.
//!
//! The lexer is a single-pass cursor over the characters of the input.
//! Its behaviour is specified by `spec_next_token`, a mathematical
//! tokenizer over the character sequence of the input.

use vstd::prelude::*;

verus! {

/// A lexical token.  Once produced it is immutable.
#[derive(Debug)]
pub enum Token {
    Fn,
    Let,
    Identifier(String),
    Number(i32),
    Plus,
    Minus,
    Star,
    Slash,
    Equal,
    Semicolon,
    LParen,
    RParen,
    LBrace,
    RBrace,
    Comma,
    EOF,
}

/// Mathematical model of a token: identifier payloads are character
/// sequences, number payloads are unbounded integers.
pub enum TokenV {
    Fn,
    Let,
    Identifier(Seq<char>),
    Number(int),
    Plus,
    Minus,
    Star,
    Slash,
    Equal,
    Semicolon,
    LParen,
    RParen,
    LBrace,
    RBrace,
    Comma,
    EOF,
}

impl View for Token {
    type V = TokenV;

    open spec fn view(&self) -> TokenV {
        match self {
            Token::Fn => TokenV::Fn,
            Token::Let => TokenV::Let,
            Token::Identifier(s) => TokenV::Identifier(s@),
            Token::Number(n) => TokenV::Number(*n as int),
            Token::Plus => TokenV::Plus,
            Token::Minus => TokenV::Minus,
            Token::Star => TokenV::Star,
            Token::Slash => TokenV::Slash,
            Token::Equal => TokenV::Equal,
            Token::Semicolon => TokenV::Semicolon,
            Token::LParen => TokenV::LParen,
            Token::RParen => TokenV::RParen,
            Token::LBrace => TokenV::LBrace,
            Token::RBrace => TokenV::RBrace,
            Token::Comma => TokenV::Comma,
            Token::EOF => TokenV::EOF,
        }
    }
}

impl Clone for Token {
    /// Cloning a token preserves it exactly.
    fn clone(&self) -> (r: Token)
        ensures
            r == *self,
    {
        match self {
            Token::Fn => Token::Fn,
            Token::Let => Token::Let,
            Token::Identifier(s) => Token::Identifier(s.clone()),
            Token::Number(n) => Token::Number(*n),
            Token::Plus => Token::Plus,
            Token::Minus => Token::Minus,
            Token::Star => Token::Star,
            Token::Slash => Token::Slash,
            Token::Equal => Token::Equal,
            Token::Semicolon => Token::Semicolon,
            Token::LParen => Token::LParen,
            Token::RParen => Token::RParen,
            Token::LBrace => Token::LBrace,
            Token::RBrace => Token::RBrace,
            Token::Comma => Token::Comma,
            Token::EOF => Token::EOF,
        }
    }
}

impl PartialEq for Token {
    /// Two tokens are equal when they have the same shape and payload.
    fn eq(&self, other: &Token) -> (r: bool) {
        match (self, other) {
            (Token::Fn, Token::Fn) => true,
            (Token::Let, Token::Let) => true,
            (Token::Identifier(a), Token::Identifier(b)) => *a == *b,
            (Token::Number(a), Token::Number(b)) => *a == *b,
            (Token::Plus, Token::Plus) => true,
            (Token::Minus, Token::Minus) => true,
            (Token::Star, Token::Star) => true,
            (Token::Slash, Token::Slash) => true,
            (Token::Equal, Token::Equal) => true,
            (Token::Semicolon, Token::Semicolon) => true,
            (Token::LParen, Token::LParen) => true,
            (Token::RParen, Token::RParen) => true,
            (Token::LBrace, Token::LBrace) => true,
            (Token::RBrace, Token::RBrace) => true,
            (Token::Comma, Token::Comma) => true,
            (Token::EOF, Token::EOF) => true,
            _ => false,
        }
    }
}

impl vstd::std_specs::cmp::PartialEqSpecImpl for Token {
    open spec fn obeys_eq_spec() -> bool {
        true
    }

    open spec fn eq_spec(&self, other: &Token) -> bool {
        self@ == other@
    }
}

/// A lexing failure; it aborts the whole compilation.
#[derive(Debug, Clone, Copy)]
pub enum LexError {
    /// A character that no token rule matches, with its position.
    UnexpectedCharacter(char, usize),
    /// A digit run that does not form an integer literal, with its
    /// start position.
    MalformedNumber(usize),
}

/// Mathematical model of a lexing failure, with unbounded positions.
pub enum LexErrorV {
    UnexpectedCharacter(char, int),
    MalformedNumber(int),
}

impl View for LexError {
    type V = LexErrorV;

    open spec fn view(&self) -> LexErrorV {
        match self {
            LexError::UnexpectedCharacter(c, p) => LexErrorV::UnexpectedCharacter(*c, *p as int),
            LexError::MalformedNumber(p) => LexErrorV::MalformedNumber(*p as int),
        }
    }
}

// ----------------------------------------------------------------------
// Character classes
// ----------------------------------------------------------------------

/// Whitespace skipped between tokens: space, tab, newline.
pub open spec fn is_ws_char(c: char) -> bool {
    c == ' ' || c == '\t' || c == '\n'
}

/// A decimal digit.
pub open spec fn is_digit_char(c: char) -> bool {
    '0' as u32 <= c as u32 && c as u32 <= '9' as u32
}

/// An ASCII letter, which may start an identifier or keyword.
pub open spec fn is_alpha_char(c: char) -> bool {
    ('a' as u32 <= c as u32 && c as u32 <= 'z' as u32)
        || ('A' as u32 <= c as u32 && c as u32 <= 'Z' as u32)
}

/// A letter or digit, which may continue an identifier or keyword.
pub open spec fn is_alnum_char(c: char) -> bool {
    is_alpha_char(c) || is_digit_char(c)
}

/// A character a number lexeme consumes: a digit or a decimal point.
pub open spec fn is_num_char(c: char) -> bool {
    is_digit_char(c) || c == '.'
}

/// A single-character operator or punctuation token.
pub open spec fn is_punct_char(c: char) -> bool {
    c == '+' || c == '-' || c == '*' || c == '/' || c == '=' || c == ';' || c == '(' || c == ')'
        || c == '{' || c == '}' || c == ','
}

/// The token a single-character operator or punctuation maps to.
pub open spec fn punct_token(c: char) -> TokenV
    recommends
        is_punct_char(c),
{
    if c == '+' {
        TokenV::Plus
    } else if c == '-' {
        TokenV::Minus
    } else if c == '*' {
        TokenV::Star
    } else if c == '/' {
        TokenV::Slash
    } else if c == '=' {
        TokenV::Equal
    } else if c == ';' {
        TokenV::Semicolon
    } else if c == '(' {
        TokenV::LParen
    } else if c == ')' {
        TokenV::RParen
    } else if c == '{' {
        TokenV::LBrace
    } else if c == '}' {
        TokenV::RBrace
    } else {
        TokenV::Comma
    }
}

/// The value of a decimal digit.
pub open spec fn digit_val(c: char) -> nat
    recommends
        is_digit_char(c),
{
    (c as u32 - '0' as u32) as nat
}

/// Every character of `s` is a decimal digit.
pub open spec fn all_digits(s: Seq<char>) -> bool {
    forall|k: int| 0 <= k < s.len() ==> is_digit_char(#[trigger] s[k])
}

/// The integer value of a digit sequence, most significant digit first.
pub open spec fn digits_val(s: Seq<char>) -> nat
    decreases s.len(),
{
    if s.len() == 0 {
        0
    } else {
        digits_val(s.drop_last()) * 10 + digit_val(s.last())
    }
}

// ----------------------------------------------------------------------
// The specification tokenizer
// ----------------------------------------------------------------------

/// The first position at or after `i` holding a non-whitespace
/// character, or the end of the input.
pub open spec fn skip_ws(s: Seq<char>, i: int) -> int
    decreases s.len() - i,
{
    if 0 <= i && i < s.len() && is_ws_char(s[i]) {
        skip_ws(s, i + 1)
    } else {
        i
    }
}

/// The end of the maximal run of letters and digits starting at `i`.
pub open spec fn ident_end(s: Seq<char>, i: int) -> int
    decreases s.len() - i,
{
    if 0 <= i && i < s.len() && is_alnum_char(s[i]) {
        ident_end(s, i + 1)
    } else {
        i
    }
}

/// The end of the maximal run of digits and decimal points starting at
/// `i`.
pub open spec fn num_end(s: Seq<char>, i: int) -> int
    decreases s.len() - i,
{
    if 0 <= i && i < s.len() && is_num_char(s[i]) {
        num_end(s, i + 1)
    } else {
        i
    }
}

/// The token an identifier-shaped lexeme is classified as.
pub open spec fn word_token(w: Seq<char>) -> TokenV {
    if w == seq!['f', 'n'] {
        TokenV::Fn
    } else if w == seq!['l', 'e', 't'] {
        TokenV::Let
    } else {
        TokenV::Identifier(w)
    }
}

/// The token a digit-run lexeme is classified as, or the lexing error
/// it raises: a run holding a decimal point or exceeding `i32::MAX`
/// does not form an integer literal.
pub open spec fn number_token(w: Seq<char>, start: int) -> Result<TokenV, LexErrorV> {
    if all_digits(w) && digits_val(w) <= i32::MAX as nat {
        Ok(TokenV::Number(digits_val(w) as int))
    } else {
        Err(LexErrorV::MalformedNumber(start))
    }
}

/// One step of tokenization from position `i`: the token produced and
/// the position just past it, or the lexing error.  At the end of the
/// input the step yields `EOF` without advancing, so the terminal state
/// is idempotent.
pub open spec fn spec_next_token(s: Seq<char>, i: int) -> Result<(TokenV, int), LexErrorV>
    recommends
        0 <= i <= s.len(),
{
    let j = skip_ws(s, i);
    if j >= s.len() {
        Ok((TokenV::EOF, j))
    } else if is_punct_char(s[j]) {
        Ok((punct_token(s[j]), j + 1))
    } else if is_alpha_char(s[j]) {
        let k = ident_end(s, j);
        Ok((word_token(s.subrange(j, k)), k))
    } else if is_digit_char(s[j]) {
        let k = num_end(s, j);
        match number_token(s.subrange(j, k), j) {
            Ok(t) => Ok((t, k)),
            Err(e) => Err(e),
        }
    } else {
        Err(LexErrorV::UnexpectedCharacter(s[j], j))
    }
}

/// `skip_ws` stays within bounds and lands on a non-whitespace
/// character or the end of the input.
pub proof fn lemma_skip_ws_bounds(s: Seq<char>, i: int)
    requires
        0 <= i <= s.len(),
    ensures
        i <= skip_ws(s, i) <= s.len(),
        skip_ws(s, i) < s.len() ==> !is_ws_char(s[skip_ws(s, i)]),
        forall|k: int| i <= k < skip_ws(s, i) ==> is_ws_char(#[trigger] s[k]),
    decreases s.len() - i,
{
    if i < s.len() && is_ws_char(s[i]) {
        lemma_skip_ws_bounds(s, i + 1);
    }
}

/// An identifier run stays within bounds, consists of letters and
/// digits, and ends where they stop.
pub proof fn lemma_ident_end_bounds(s: Seq<char>, i: int)
    requires
        0 <= i <= s.len(),
    ensures
        i <= ident_end(s, i) <= s.len(),
        ident_end(s, i) < s.len() ==> !is_alnum_char(s[ident_end(s, i)]),
        forall|k: int| i <= k < ident_end(s, i) ==> is_alnum_char(#[trigger] s[k]),
    decreases s.len() - i,
{
    if i < s.len() && is_alnum_char(s[i]) {
        lemma_ident_end_bounds(s, i + 1);
    }
}

/// A number run stays within bounds, consists of digits and decimal
/// points, and ends where they stop.
pub proof fn lemma_num_end_bounds(s: Seq<char>, i: int)
    requires
        0 <= i <= s.len(),
    ensures
        i <= num_end(s, i) <= s.len(),
        num_end(s, i) < s.len() ==> !is_num_char(s[num_end(s, i)]),
        forall|k: int| i <= k < num_end(s, i) ==> is_num_char(#[trigger] s[k]),
    decreases s.len() - i,
{
    if i < s.len() && is_num_char(s[i]) {
        lemma_num_end_bounds(s, i + 1);
    }
}

/// A successful tokenization step never moves backwards, stays within
/// the input, and advances strictly unless it produced `EOF`.
pub proof fn lemma_next_token_bounds(s: Seq<char>, i: int)
    requires
        0 <= i <= s.len(),
    ensures
        spec_next_token(s, i) matches Ok((t, j)) ==> i <= j <= s.len() && (t != TokenV::EOF
            ==> j > i && skip_ws(s, i) < j),
{
    lemma_skip_ws_bounds(s, i);
    let j = skip_ws(s, i);
    if j < s.len() && is_alpha_char(s[j]) {
        lemma_ident_end_bounds(s, j);
        assert(ident_end(s, j) > j);
    }
    if j < s.len() && !is_punct_char(s[j]) && !is_alpha_char(s[j]) && is_digit_char(s[j]) {
        lemma_num_end_bounds(s, j);
        assert(num_end(s, j) > j);
    }
}

// ----------------------------------------------------------------------
// Executable character classification
// ----------------------------------------------------------------------

fn ch_is_ws(c: char) -> (r: bool)
    ensures
        r == is_ws_char(c),
{
    c == ' ' || c == '\t' || c == '\n'
}

fn ch_is_digit(c: char) -> (r: bool)
    ensures
        r == is_digit_char(c),
{
    let u = c as u32;
    48 <= u && u <= 57
}

fn ch_is_alpha(c: char) -> (r: bool)
    ensures
        r == is_alpha_char(c),
{
    let u = c as u32;
    (97 <= u && u <= 122) || (65 <= u && u <= 90)
}

fn ch_is_alnum(c: char) -> (r: bool)
    ensures
        r == is_alnum_char(c),
{
    ch_is_alpha(c) || ch_is_digit(c)
}

fn ch_is_num(c: char) -> (r: bool)
    ensures
        r == is_num_char(c),
{
    ch_is_digit(c) || c == '.'
}

// ----------------------------------------------------------------------
// The executable lexer
// ----------------------------------------------------------------------

/// A cursor over the source text.  `position` is the index of
/// `current_char` (in characters); past the end `current_char` is
/// `None` and the cursor no longer moves.
pub struct Lexer<'a> {
    input: &'a str,
    position: usize,
    read_position: usize,
    current_char: Option<char>,
}

impl<'a> Lexer<'a> {
    /// The character sequence being tokenized.
    pub closed spec fn src(self) -> Seq<char> {
        self.input@
    }

    /// The position of the cursor.
    pub closed spec fn pos(self) -> int {
        self.position as int
    }

    /// The cursor is consistent with the input: `current_char` mirrors
    /// the character under `position`, and `read_position` is one past
    /// it until the end is reached.
    pub closed spec fn wf(self) -> bool {
        &&& self.position as int <= self.src().len()
        &&& self.read_position as int == if (self.position as int) < self.src().len() {
            self.position as int + 1
        } else {
            self.src().len() as int
        }
        &&& self.current_char == if (self.position as int) < self.src().len() {
            Some(self.src()[self.position as int])
        } else {
            None::<char>
        }
    }

    /// A fresh lexer positioned at the start of `input`.
    pub fn new(input: &'a str) -> (r: Lexer<'a>)
        ensures
            r.wf(),
            r.src() == input@,
            r.pos() == 0,
    {
        let mut lexer = Lexer { input, position: 0, read_position: 0, current_char: None };
        lexer.read_char();
        lexer
    }

    /// Advances the cursor by one character, stopping at the end of the
    /// input.
    fn read_char(&mut self)
        requires
            old(self).read_position as int <= old(self).src().len(),
        ensures
            final(self).wf(),
            final(self).src() == old(self).src(),
            final(self).pos() == old(self).read_position as int,
    {
        let len = self.input.unicode_len();
        if self.read_position >= len {
            self.current_char = None;
            self.position = self.read_position;
        } else {
            self.current_char = Some(self.input.get_char(self.read_position));
            self.position = self.read_position;
            self.read_position = self.read_position + 1;
        }
    }

    /// Moves the cursor past any whitespace.
    fn skip_whitespace(&mut self)
        requires
            old(self).wf(),
        ensures
            final(self).wf(),
            final(self).src() == old(self).src(),
            final(self).pos() == skip_ws(old(self).src(), old(self).pos()),
    {
        loop
            invariant
                self.wf(),
                self.src() == old(self).src(),
                skip_ws(self.src(), self.pos()) == skip_ws(old(self).src(), old(self).pos()),
            ensures
                self.wf(),
                self.src() == old(self).src(),
                skip_ws(self.src(), self.pos()) == skip_ws(old(self).src(), old(self).pos()),
                match self.current_char {
                    Some(ch) => !is_ws_char(ch),
                    None => true,
                },
            decreases self.src().len() - self.pos(),
        {
            match self.current_char {
                Some(ch) => {
                    if ch_is_ws(ch) {
                        self.read_char();
                    } else {
                        break ;
                    }
                },
                None => {
                    break ;
                },
            }
        }
    }

    /// Reads the maximal run of letters and digits starting at the
    /// cursor and returns it as a string.
    fn read_identifier(&mut self) -> (r: String)
        requires
            old(self).wf(),
            old(self).pos() < old(self).src().len(),
            is_alpha_char(old(self).src()[old(self).pos()]),
        ensures
            final(self).wf(),
            final(self).src() == old(self).src(),
            final(self).pos() == ident_end(old(self).src(), old(self).pos()),
            r@ == old(self).src().subrange(old(self).pos(), final(self).pos()),
    {
        let start = self.position;
        loop
            invariant
                self.wf(),
                self.src() == old(self).src(),
                start as int <= self.pos() <= self.src().len(),
                ident_end(self.src(), self.pos()) == ident_end(old(self).src(), old(self).pos()),
            ensures
                self.wf(),
                self.src() == old(self).src(),
                start as int <= self.pos() <= self.src().len(),
                ident_end(self.src(), self.pos()) == ident_end(old(self).src(), old(self).pos()),
                match self.current_char {
                    Some(ch) => !is_alnum_char(ch),
                    None => true,
                },
            decreases self.src().len() - self.pos(),
        {
            match self.current_char {
                Some(ch) => {
                    if ch_is_alnum(ch) {
                        self.read_char();
                    } else {
                        break ;
                    }
                },
                None => {
                    break ;
                },
            }
        }
        let s = self.input.substring_char(start, self.position);
        s.to_owned()
    }

    /// Reads the maximal run of digits and decimal points starting at
    /// the cursor and parses it as an integer literal.
    fn read_number(&mut self) -> (r: Result<i32, LexError>)
        requires
            old(self).wf(),
            old(self).pos() < old(self).src().len(),
            is_digit_char(old(self).src()[old(self).pos()]),
        ensures
            final(self).wf(),
            final(self).src() == old(self).src(),
            final(self).pos() == num_end(old(self).src(), old(self).pos()),
            ({
                let w = old(self).src().subrange(old(self).pos(), final(self).pos());
                match number_token(w, old(self).pos()) {
                    Ok(t) => r matches Ok(v) && TokenV::Number(v as int) == t,
                    Err(e) => r matches Err(err) && err@ == e,
                }
            }),
    {
        let start = self.position;
        loop
            invariant
                self.wf(),
                self.src() == old(self).src(),
                start as int == old(self).pos(),
                start as int <= self.pos() <= self.src().len(),
                num_end(self.src(), self.pos()) == num_end(old(self).src(), old(self).pos()),
            ensures
                self.wf(),
                self.src() == old(self).src(),
                start as int <= self.pos() <= self.src().len(),
                num_end(self.src(), self.pos()) == num_end(old(self).src(), old(self).pos()),
                match self.current_char {
                    Some(ch) => !is_num_char(ch),
                    None => true,
                },
            decreases self.src().len() - self.pos(),
        {
            match self.current_char {
                Some(ch) => {
                    if ch_is_num(ch) {
                        self.read_char();
                    } else {
                        break ;
                    }
                },
                None => {
                    break ;
                },
            }
        }
        let end = self.position;
        proof {
            assert(self.pos() == num_end(old(self).src(), old(self).pos()));
        }
        let ghost w = self.src().subrange(start as int, end as int);
        let mut value: i32 = 0;
        let mut k = start;
        while k < end
            invariant
                self.wf(),
                self.src() == old(self).src(),
                start as int == old(self).pos(),
                self.pos() == num_end(old(self).src(), old(self).pos()),
                end == self.position,
                start <= k <= end,
                end as int <= self.src().len(),
                w == self.src().subrange(start as int, end as int),
                all_digits(w.subrange(0, k - start)),
                value as nat == digits_val(w.subrange(0, k - start)),
                0 <= value <= i32::MAX,
            decreases end - k,
        {
            let c = self.input.get_char(k);
            let ghost prefix = w.subrange(0, k - start);
            proof {
                assert(w[k - start] == c);
            }
            if !ch_is_digit(c) {
                proof {
                    assert(!all_digits(w));
                }
                return Err(LexError::MalformedNumber(start));
            }
            let d = (c as u32) - 48;
            if value > (i32::MAX - d as i32) / 10 {
                proof {
                    let p2 = w.subrange(0, k - start + 1);
                    assert(p2.drop_last() =~= prefix);
                    assert(p2.last() == c);
                    assert(digits_val(p2) == digits_val(prefix) * 10 + digit_val(c));
                    assert(value as int * 10 + d as int > i32::MAX as int) by {
                        let m = i32::MAX as int - d as int;
                        assert(m == 10 * (m / 10) + m % 10) by (nonlinear_arith);
                        assert(value as int >= m / 10 + 1);
                        assert(value as int * 10 >= (m / 10 + 1) * 10) by (nonlinear_arith)
                            requires value as int >= m / 10 + 1;
                    };
                    assert(digits_val(p2) > i32::MAX as nat);
                    lemma_digits_val_prefix_le(w, k - start + 1);
                    assert(digits_val(w) > i32::MAX as nat);
                }
                return Err(LexError::MalformedNumber(start));
            }
            proof {
                let p2 = w.subrange(0, k - start + 1);
                assert(p2.drop_last() =~= prefix);
                assert(p2.last() == c);
                assert(digits_val(p2) == digits_val(prefix) * 10 + digit_val(c));
            }
            value = value * 10 + d as i32;
            k = k + 1;
        }
        proof {
            assert(w.subrange(0, end - start) =~= w);
        }
        Ok(value)
    }

    /// Produces the next token, advancing the cursor past it.  Past the
    /// end of the input every call yields `EOF`.
    pub fn next_token(&mut self) -> (r: Result<Token, LexError>)
        requires
            old(self).wf(),
        ensures
            final(self).wf(),
            final(self).src() == old(self).src(),
            match spec_next_token(old(self).src(), old(self).pos()) {
                Ok((t, j)) => r matches Ok(tok) && tok@ == t && final(self).pos() == j,
                Err(e) => r matches Err(err) && err@ == e,
            },
    {
        proof {
            lemma_skip_ws_bounds(old(self).src(), old(self).pos());
        }
        self.skip_whitespace();
        match self.current_char {
            None => Ok(Token::EOF),
            Some(c) => {
                if c == '+' {
                    self.read_char();
                    Ok(Token::Plus)
                } else if c == '-' {
                    self.read_char();
                    Ok(Token::Minus)
                } else if c == '*' {
                    self.read_char();
                    Ok(Token::Star)
                } else if c == '/' {
                    self.read_char();
                    Ok(Token::Slash)
                } else if c == '=' {
                    self.read_char();
                    Ok(Token::Equal)
                } else if c == ';' {
                    self.read_char();
                    Ok(Token::Semicolon)
                } else if c == '(' {
                    self.read_char();
                    Ok(Token::LParen)
                } else if c == ')' {
                    self.read_char();
                    Ok(Token::RParen)
                } else if c == '{' {
                    self.read_char();
                    Ok(Token::LBrace)
                } else if c == '}' {
                    self.read_char();
                    Ok(Token::RBrace)
                } else if c == ',' {
                    self.read_char();
                    Ok(Token::Comma)
                } else if ch_is_alpha(c) {
                    let ident = self.read_identifier();
                    proof {
                        reveal_strlit("fn");
                        reveal_strlit("let");
                        assert("fn"@ =~= seq!['f', 'n']);
                        assert("let"@ =~= seq!['l', 'e', 't']);
                    }
                    if ident == String::from_str("fn") {
                        Ok(Token::Fn)
                    } else if ident == String::from_str("let") {
                        Ok(Token::Let)
                    } else {
                        Ok(Token::Identifier(ident))
                    }
                } else if ch_is_digit(c) {
                    match self.read_number() {
                        Ok(v) => Ok(Token::Number(v)),
                        Err(e) => Err(e),
                    }
                } else {
                    Err(LexError::UnexpectedCharacter(c, self.position))
                }
            },
        }
    }
}

/// The value of a digit sequence is at least the value of any of its
/// prefixes.
pub proof fn lemma_digits_val_prefix_le(w: Seq<char>, m: int)
    requires
        0 <= m <= w.len(),
    ensures
        digits_val(w.subrange(0, m)) <= digits_val(w),
    decreases w.len() - m,
{
    if m < w.len() {
        let p = w.subrange(0, m);
        let p2 = w.subrange(0, m + 1);
        assert(p2.drop_last() =~= p);
        assert(digits_val(p2) == digits_val(p) * 10 + digit_val(p2.last()));
        lemma_digits_val_prefix_le(w, m + 1);
    } else {
        assert(w.subrange(0, m) =~= w);
    }
}

// ----------------------------------------------------------------------
// Tokenization round-trip for lexeme boundaries
// ----------------------------------------------------------------------

/// The token sequence of the whole input from position `i`, each
/// token paired with its lexeme: the characters it spans.  `EOF` ends
/// the sequence and carries no lexeme.
pub open spec fn spec_lex_units(s: Seq<char>, i: int) -> Result<
    Seq<(TokenV, Seq<char>)>,
    LexErrorV,
>
    decreases s.len() - i,
        when 0 <= i <= s.len()
{
    match spec_next_token(s, i) {
        Err(e) => Err(e),
        Ok((t, j)) => if t == TokenV::EOF {
            Ok(Seq::empty())
        } else {
            proof {
                lemma_next_token_bounds(s, i);
            }
            match spec_lex_units(s, j) {
                Err(e) => Err(e),
                Ok(rest) => Ok(seq![(t, s.subrange(skip_ws(s, i), j))] + rest),
            }
        },
    }
}

/// The lexemes of a token sequence, concatenated in order.
pub open spec fn concat_lexemes(units: Seq<(TokenV, Seq<char>)>) -> Seq<char>
    decreases units.len(),
{
    if units.len() == 0 {
        Seq::empty()
    } else {
        units[0].1 + concat_lexemes(units.drop_first())
    }
}

/// The significant characters of the input: everything that is not
/// whitespace, in order.
pub open spec fn significant(s: Seq<char>) -> Seq<char>
    decreases s.len(),
{
    if s.len() == 0 {
        Seq::empty()
    } else if is_ws_char(s[0]) {
        significant(s.drop_first())
    } else {
        seq![s[0]] + significant(s.drop_first())
    }
}

/// A sequence of whitespace has no significant characters.
proof fn lemma_significant_all_ws(t: Seq<char>)
    requires
        forall|k: int| 0 <= k < t.len() ==> is_ws_char(#[trigger] t[k]),
    ensures
        significant(t) == Seq::<char>::empty(),
    decreases t.len(),
{
    if t.len() > 0 {
        lemma_significant_all_ws(t.drop_first());
    }
}

/// A sequence without whitespace is all significant.
proof fn lemma_significant_none_ws(t: Seq<char>)
    requires
        forall|k: int| 0 <= k < t.len() ==> !is_ws_char(#[trigger] t[k]),
    ensures
        significant(t) == t,
    decreases t.len(),
{
    if t.len() > 0 {
        lemma_significant_none_ws(t.drop_first());
        assert(seq![t[0]] + t.drop_first() =~= t);
    }
}

/// Significant characters distribute over concatenation.
proof fn lemma_significant_concat(t1: Seq<char>, t2: Seq<char>)
    ensures
        significant(t1 + t2) == significant(t1) + significant(t2),
    decreases t1.len(),
{
    if t1.len() == 0 {
        assert(t1 + t2 =~= t2);
        assert(significant(t1) + significant(t2) =~= significant(t2));
    } else {
        assert((t1 + t2).drop_first() =~= t1.drop_first() + t2);
        lemma_significant_concat(t1.drop_first(), t2);
        assert((t1 + t2)[0] == t1[0]);
        if !is_ws_char(t1[0]) {
            assert(seq![t1[0]] + (significant(t1.drop_first()) + significant(t2)) =~= (seq![
                t1[0],
            ] + significant(t1.drop_first())) + significant(t2));
        }
    }
}

/// The characters a token spans are never whitespace.
proof fn lemma_token_chars_not_ws(s: Seq<char>, i: int)
    requires
        0 <= i <= s.len(),
    ensures
        spec_next_token(s, i) matches Ok((t, j)) ==> (t != TokenV::EOF ==> forall|k: int|
            skip_ws(s, i) <= k < j ==> !is_ws_char(#[trigger] s[k])),
{
    lemma_skip_ws_bounds(s, i);
    let j0 = skip_ws(s, i);
    if j0 < s.len() {
        if is_alpha_char(s[j0]) {
            lemma_ident_end_bounds(s, j0);
        } else if !is_punct_char(s[j0]) && is_digit_char(s[j0]) {
            lemma_num_end_bounds(s, j0);
        }
    }
}

/// Tokenization round-trip for lexeme boundaries, from position `i`:
/// the lexemes of the remaining tokens, concatenated, are exactly the
/// remaining significant characters.
proof fn lemma_lex_round_trip_from(s: Seq<char>, i: int)
    requires
        0 <= i <= s.len(),
        spec_lex_units(s, i) is Ok,
    ensures
        concat_lexemes(spec_lex_units(s, i)->Ok_0) == significant(
            s.subrange(i, s.len() as int),
        ),
    decreases s.len() - i,
{
    let len = s.len() as int;
    lemma_next_token_bounds(s, i);
    lemma_skip_ws_bounds(s, i);
    lemma_token_chars_not_ws(s, i);
    let j0 = skip_ws(s, i);
    match spec_next_token(s, i) {
        Err(e) => {},
        Ok((t, j)) => {
            if t == TokenV::EOF {
                lemma_significant_all_ws(s.subrange(i, len));
            } else {
                let t1 = s.subrange(i, j0);
                let lex = s.subrange(j0, j);
                let t3 = s.subrange(j, len);
                assert(s.subrange(i, len) =~= t1 + (lex + t3));
                lemma_significant_concat(t1, lex + t3);
                lemma_significant_concat(lex, t3);
                lemma_significant_all_ws(t1);
                lemma_significant_none_ws(lex);
                lemma_lex_round_trip_from(s, j);
                let units = spec_lex_units(s, i)->Ok_0;
                let rest = spec_lex_units(s, j)->Ok_0;
                assert(units.drop_first() =~= rest);
                assert(concat_lexemes(units) == lex + concat_lexemes(rest));
            }
        },
    }
}

/// Tokenization round-trip for lexeme boundaries: on an input that
/// lexes in full, concatenating the lexemes of the token sequence, in
/// order, reconstructs exactly the input with its whitespace removed.
/// Nothing significant is lost or reordered by the lexer.
pub proof fn lemma_lex_round_trip(s: Seq<char>)
    requires
        spec_lex_units(s, 0) is Ok,
    ensures
        concat_lexemes(spec_lex_units(s, 0)->Ok_0) == significant(s),
{
    lemma_lex_round_trip_from(s, 0);
    assert(s.subrange(0, s.len() as int) =~= s);
}

/// The terminal state is idempotent: once a step yields `EOF` the
/// cursor stands still and every later step yields `EOF` again.
pub proof fn lemma_eof_idempotent(s: Seq<char>, i: int)
    requires
        0 <= i <= s.len(),
        spec_next_token(s, i) matches Ok((t, j)) && t == TokenV::EOF,
    ensures
        spec_next_token(s, i) == Ok::<(TokenV, int), LexErrorV>((TokenV::EOF, s.len() as int)),
        spec_next_token(s, s.len() as int) == Ok::<(TokenV, int), LexErrorV>(
            (TokenV::EOF, s.len() as int),
        ),
{
    lemma_skip_ws_bounds(s, i);
    lemma_skip_ws_bounds(s, s.len() as int);
}

/// A well-formed lexer's cursor lies within its input.
pub proof fn lemma_lexer_bounds(l: Lexer)
    requires
        l.wf(),
    ensures
        0 <= l.pos() <= l.src().len(),
{
}

} // verus!
