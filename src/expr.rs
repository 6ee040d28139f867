use vstd::prelude::*;
use crate::token::{
    assoc_of, defined, exact_value, is_binary, operator_like, precedence_of, Assoc, Token,
};
use crate::tokenizer::{lex, Tokenizer};

verus! {

/// What parsing from a position yields: a value and the position after it,
/// a malformed expression, or an arithmetic fault (overflow, division by
/// zero, negative exponent), which stops evaluation at once.
pub enum Outcome {
    Value(int, int),
    Malformed,
    Fault,
}

/// An expression at `p` whose operators all have precedence `min` or more.
pub open spec fn expr_at(ts: Seq<Token>, p: int, min: int) -> Outcome
    decreases ts.len() - p, 1int,
{
    if p < 0 || p >= ts.len() {
        Outcome::Malformed
    } else {
        match atom_at(ts, p) {
            Outcome::Value(v, q) => if p < q <= ts.len() {
                climb(ts, v, q, min)
            } else {
                Outcome::Malformed
            },
            o => o,
        }
    }
}

/// Folds operators of precedence `min` or more onto `lhs`, from `p` on.
pub open spec fn climb(ts: Seq<Token>, lhs: int, p: int, min: int) -> Outcome
    decreases ts.len() - p, 2int,
{
    if p < 0 || p >= ts.len() {
        Outcome::Value(lhs, p)
    } else {
        let t = ts[p];
        if !operator_like(t) || precedence_of(t) < min {
            Outcome::Value(lhs, p)
        } else {
            let next_min = if assoc_of(t) == Assoc::Left {
                precedence_of(t) + 1
            } else {
                precedence_of(t)
            };
            match expr_at(ts, p + 1, next_min) {
                Outcome::Value(r, q) => if !is_binary(t) {
                    Outcome::Malformed
                } else if !defined(t, lhs, r) {
                    Outcome::Fault
                } else if p < q <= ts.len() {
                    climb(ts, exact_value(t, lhs, r), q, min)
                } else {
                    Outcome::Malformed
                },
                o => o,
            }
        }
    }
}

/// A number, or an expression in parentheses, at `p`.
pub open spec fn atom_at(ts: Seq<Token>, p: int) -> Outcome
    decreases ts.len() - p, 0int,
{
    if p < 0 || p >= ts.len() {
        Outcome::Malformed
    } else {
        match ts[p] {
            Token::Number(n) => Outcome::Value(n as int, p + 1),
            Token::LeftParen => match expr_at(ts, p + 1, 1) {
                Outcome::Value(v, q) => if 0 <= q < ts.len() && ts[q] == Token::RightParen {
                    Outcome::Value(v, q + 1)
                } else {
                    Outcome::Malformed
                },
                o => o,
            },
            _ => Outcome::Malformed,
        }
    }
}

/// The token at `p` can start an atom: a number or a left parenthesis.
pub open spec fn starts_atom(ts: Seq<Token>, p: int) -> bool {
    0 <= p < ts.len() && (ts[p] is Number || ts[p] is LeftParen)
}

/// Evaluating the tokens from `p` on as one whole expression.
pub open spec fn eval_from(ts: Seq<Token>, p: int) -> Outcome {
    match expr_at(ts, p, 1) {
        Outcome::Value(v, q) => if q == ts.len() {
            Outcome::Value(v, q)
        } else {
            Outcome::Malformed
        },
        o => o,
    }
}

/// The value of a text, or `None` where it is not a well-formed expression.
pub open spec fn value_of(s: Seq<char>) -> Option<int> {
    match eval_from(lex(s), 0) {
        Outcome::Value(v, _) => Some(v),
        _ => None,
    }
}

/// Evaluating the text reaches an arithmetic fault.
pub open spec fn faults(s: Seq<char>) -> bool {
    eval_from(lex(s), 0) is Fault
}

/// The error of a malformed expression, with a description of it.
#[derive(Debug)]
pub enum ExprError {
    Parse(String),
}

impl ExprError {
    /// The description of the error.
    pub fn message(&self) -> (r: String)
        ensures
            match self {
                ExprError::Parse(m) => r@ == m@,
            },
    {
        match self {
            ExprError::Parse(s) => s.clone(),
        }
    }
}

/// Why an evaluation stopped without a value.
#[derive(Debug)]
pub enum Failure {
    /// The expression is malformed.
    Syntax(ExprError),
    /// Overflow, division by zero or a negative exponent.
    Arithmetic,
}

/// An evaluator over the tokens of one text, with one token of lookahead.
pub struct Expr<'a> {
    src: &'a str,
    tokens: Vec<Token>,
    pos: usize,
}

impl<'a> Expr<'a> {
    /// The tokens are those of the text, and the cursor lies within them.
    pub open spec fn wf(&self) -> bool {
        &&& 0 <= self.cursor() <= self.token_seq().len()
        &&& self.token_seq() == lex(self.source())
    }

    /// The text being evaluated.
    pub closed spec fn source(&self) -> Seq<char> {
        self.src@
    }

    /// The tokens of the text.
    pub closed spec fn token_seq(&self) -> Seq<Token> {
        self.tokens@
    }

    /// The position of the next token to read.
    pub closed spec fn cursor(&self) -> int {
        self.pos as int
    }

    /// An evaluator at the first token of `src`.
    pub fn new(src: &'a str) -> (e: Self)
        ensures
            e.wf(),
            e.source() == src@,
            e.token_seq() == lex(src@),
            e.cursor() == 0,
    {
        let mut t = Tokenizer::new(src);
        let tokens = t.collect_tokens();
        Expr { src, tokens, pos: 0 }
    }

    /// Starts over from the first token of the text.
    pub fn reset(&mut self)
        requires
            old(self).wf(),
        ensures
            final(self).wf(),
            final(self).source() == old(self).source(),
            final(self).token_seq() == old(self).token_seq(),
            final(self).cursor() == 0,
    {
        let mut t = Tokenizer::new(self.src);
        self.tokens = t.collect_tokens();
        self.pos = 0;
    }

    /// Parses an expression whose operators have precedence `min_prec` or
    /// more, starting at the cursor, and returns its value.
    pub fn compute_expression(&mut self, min_prec: i32) -> (r: Result<i32, ExprError>)
        requires
            old(self).wf(),
            !(expr_at(old(self).token_seq(), old(self).cursor(), min_prec as int) is Fault),
        ensures
            final(self).wf(),
            final(self).source() == old(self).source(),
            final(self).token_seq() == old(self).token_seq(),
            ({
                match expr_at(old(self).token_seq(), old(self).cursor(), min_prec as int) {
                    Outcome::Value(v, q) => r matches Ok(x) && x == v && final(self).cursor() == q,
                    _ => r is Err,
                }
            }),
    {
        match self.parse_expression(min_prec) {
            Ok(v) => Ok(v),
            Err(Failure::Syntax(e)) => Err(e),
            Err(Failure::Arithmetic) => Err(ExprError::Parse("arithmetic fault".to_string())),
        }
    }

    /// Parses a number, or an expression in parentheses, at the cursor.
    pub fn compute_atom(&mut self) -> (r: Result<i32, ExprError>)
        requires
            old(self).wf(),
            !(atom_at(old(self).token_seq(), old(self).cursor()) is Fault),
        ensures
            final(self).wf(),
            final(self).source() == old(self).source(),
            final(self).token_seq() == old(self).token_seq(),
            ({
                match atom_at(old(self).token_seq(), old(self).cursor()) {
                    Outcome::Value(v, q) => r matches Ok(x) && x == v && final(self).cursor() == q,
                    _ => r is Err,
                }
            }),
            !starts_atom(old(self).token_seq(), old(self).cursor()) ==> final(self).cursor()
                == old(self).cursor(),
    {
        match self.parse_atom() {
            Ok(v) => Ok(v),
            Err(Failure::Syntax(e)) => Err(e),
            Err(Failure::Arithmetic) => Err(ExprError::Parse("arithmetic fault".to_string())),
        }
    }

    /// Evaluates the tokens from the cursor on as one whole expression,
    /// reporting an arithmetic fault as such.
    pub fn checked_evaluation(&mut self) -> (r: Result<i32, Failure>)
        requires
            old(self).wf(),
        ensures
            final(self).wf(),
            final(self).source() == old(self).source(),
            final(self).token_seq() == old(self).token_seq(),
            ({
                match eval_from(old(self).token_seq(), old(self).cursor()) {
                    Outcome::Value(v, _) => r matches Ok(x) && x == v,
                    Outcome::Malformed => r matches Err(Failure::Syntax(_)),
                    Outcome::Fault => r matches Err(Failure::Arithmetic),
                }
            }),
    {
        let v = match self.parse_expression(1) {
            Ok(v) => v,
            Err(e) => return Err(e),
        };
        if self.peek().is_some() {
            return Err(Failure::Syntax(ExprError::Parse("unexpected trailing input".to_string())));
        }
        Ok(v)
    }

    /// Evaluates the tokens from the cursor on as one whole expression.
    pub fn evaluation(&mut self) -> (r: Result<i32, ExprError>)
        requires
            old(self).wf(),
            !(eval_from(old(self).token_seq(), old(self).cursor()) is Fault),
        ensures
            final(self).wf(),
            final(self).source() == old(self).source(),
            final(self).token_seq() == old(self).token_seq(),
            ({
                match eval_from(old(self).token_seq(), old(self).cursor()) {
                    Outcome::Value(v, _) => r matches Ok(x) && x == v,
                    _ => r is Err,
                }
            }),
    {
        match self.checked_evaluation() {
            Ok(v) => Ok(v),
            Err(Failure::Syntax(e)) => Err(e),
            Err(Failure::Arithmetic) => Err(ExprError::Parse("arithmetic fault".to_string())),
        }
    }

    fn peek(&self) -> (r: Option<Token>)
        requires
            self.wf(),
        ensures
            self.pos < self.tokens.len() ==> r == Some(self.tokens@[self.pos as int]),
            self.pos >= self.tokens.len() ==> r is None,
    {
        if self.pos < self.tokens.len() {
            Some(self.tokens[self.pos])
        } else {
            None
        }
    }

    fn parse_expression(&mut self, min_prec: i32) -> (r: Result<i32, Failure>)
        requires
            old(self).wf(),
        ensures
            final(self).wf(),
            final(self).src == old(self).src,
            final(self).tokens == old(self).tokens,
            ({
                match expr_at(old(self).tokens@, old(self).pos as int, min_prec as int) {
                    Outcome::Value(v, q) => r == Ok::<i32, Failure>(v as i32) && v == (v as i32) as int
                        && final(self).pos == q,
                    Outcome::Malformed => r matches Err(Failure::Syntax(_)),
                    Outcome::Fault => r matches Err(Failure::Arithmetic),
                }
            }),
        decreases old(self).tokens.len() - old(self).pos, 1int,
    {
        let ghost ts = self.tokens@;
        let ghost p0 = self.pos as int;
        proof {
            lemma_atom_advances(ts, p0);
        }
        let mut lhs = match self.parse_atom() {
            Ok(v) => v,
            Err(e) => return Err(e),
        };
        loop
            invariant
                self.wf(),
                self.src == old(self).src,
                self.tokens == old(self).tokens,
                ts == self.tokens@,
                p0 == old(self).pos,
                p0 < self.pos,
                climb(ts, lhs as int, self.pos as int, min_prec as int) == expr_at(ts, p0, min_prec as int),
            decreases self.tokens.len() - self.pos,
        {
            let token = match self.peek() {
                Some(t) => t,
                None => return Ok(lhs),
            };
            if !token.is_operator() || token.precedence() < min_prec {
                return Ok(lhs);
            }
            let mut next_prec = token.precedence();
            if token.assoc() == Assoc::Left {
                next_prec = next_prec + 1;
            }
            self.pos = self.pos + 1;
            let ghost p1 = self.pos as int;
            let rhs = match self.parse_expression(next_prec) {
                Ok(v) => v,
                Err(e) => return Err(e),
            };
            proof {
                lemma_value_advances(ts, p1, next_prec as int);
            }
            if !token.is_operator() || token.precedence() == 0 {
                return Err(Failure::Syntax(ExprError::Parse("unknown operator".to_string())));
            }
            if !token.is_defined(lhs, rhs) {
                return Err(Failure::Arithmetic);
            }
            match token.compute(lhs, rhs) {
                Some(v) => {
                    lhs = v;
                },
                None => return Err(Failure::Syntax(ExprError::Parse("unknown operator".to_string()))),
            }
        }
    }

    fn parse_atom(&mut self) -> (r: Result<i32, Failure>)
        requires
            old(self).wf(),
        ensures
            final(self).wf(),
            final(self).src == old(self).src,
            final(self).tokens == old(self).tokens,
            ({
                match atom_at(old(self).tokens@, old(self).pos as int) {
                    Outcome::Value(v, q) => r == Ok::<i32, Failure>(v as i32) && v == (v as i32) as int
                        && final(self).pos == q,
                    Outcome::Malformed => r matches Err(Failure::Syntax(_)),
                    Outcome::Fault => r matches Err(Failure::Arithmetic),
                }
            }),
            !starts_atom(old(self).tokens@, old(self).pos as int) ==> final(self).pos == old(self).pos,
        decreases old(self).tokens.len() - old(self).pos, 0int,
    {
        match self.peek() {
            Some(Token::Number(n)) => {
                self.pos = self.pos + 1;
                Ok(n)
            },
            Some(Token::LeftParen) => {
                self.pos = self.pos + 1;
                let v = match self.parse_expression(1) {
                    Ok(v) => v,
                    Err(e) => return Err(e),
                };
                match self.peek() {
                    Some(Token::RightParen) => {
                        self.pos = self.pos + 1;
                        Ok(v)
                    },
                    _ => Err(Failure::Syntax(ExprError::Parse("missing closing parenthesis".to_string()))),
                }
            },
            _ => Err(Failure::Syntax(ExprError::Parse("expected a number or left parenthesis".to_string()))),
        }
    }
}

/// `r` is the result that evaluating `s` gives: its value, or an error
/// where it is malformed.
pub open spec fn reports(s: Seq<char>, r: Result<i32, ExprError>) -> bool {
    match r {
        Ok(v) => value_of(s) == Some(v as int),
        Err(_) => value_of(s) is None,
    }
}

/// Evaluates a text as one expression.
pub fn evaluate(src: &str) -> (r: Result<i32, ExprError>)
    requires
        !faults(src@),
    ensures
        reports(src@, r),
{
    let mut e = Expr::new(src);
    e.evaluation()
}

/// Evaluates a text as one expression; an arithmetic fault is reported as
/// `Failure::Arithmetic`.
pub fn checked_evaluate(src: &str) -> (r: Result<i32, Failure>)
    ensures
        match r {
            Ok(v) => value_of(src@) == Some(v as int),
            Err(Failure::Syntax(_)) => value_of(src@) is None && !faults(src@),
            Err(Failure::Arithmetic) => faults(src@),
        },
{
    let mut e = Expr::new(src);
    e.checked_evaluation()
}

/// A value parsed from a position ends past it, within the tokens.
pub proof fn lemma_value_advances(ts: Seq<Token>, p: int, min: int)
    ensures
        expr_at(ts, p, min) matches Outcome::Value(_, q) ==> p < q <= ts.len(),
    decreases ts.len() - p, 1int,
{
    if 0 <= p < ts.len() {
        lemma_atom_advances(ts, p);
        if let Outcome::Value(v, q) = atom_at(ts, p) {
            if p < q <= ts.len() {
                lemma_climb_advances(ts, v, q, min);
            }
        }
    }
}

/// An atom parsed from a position ends past it, within the tokens.
pub proof fn lemma_atom_advances(ts: Seq<Token>, p: int)
    ensures
        atom_at(ts, p) matches Outcome::Value(_, q) ==> p < q <= ts.len(),
    decreases ts.len() - p, 0int,
{
    if 0 <= p < ts.len() && ts[p] is LeftParen {
        lemma_value_advances(ts, p + 1, 1);
    }
}

/// Folding operators never moves back, nor past the tokens.
pub proof fn lemma_climb_advances(ts: Seq<Token>, lhs: int, p: int, min: int)
    requires
        p <= ts.len(),
    ensures
        climb(ts, lhs, p, min) matches Outcome::Value(_, q) ==> p <= q <= ts.len(),
    decreases ts.len() - p, 2int,
{
    if 0 <= p < ts.len() {
        let t = ts[p];
        if operator_like(t) && precedence_of(t) >= min {
            let next_min = if assoc_of(t) == Assoc::Left {
                precedence_of(t) + 1
            } else {
                precedence_of(t)
            };
            lemma_value_advances(ts, p + 1, next_min);
            if let Outcome::Value(r, q) = expr_at(ts, p + 1, next_min) {
                if is_binary(t) && defined(t, lhs, r) && p < q <= ts.len() {
                    lemma_climb_advances(ts, exact_value(t, lhs, r), q, min);
                }
            }
        }
    }
}

} // verus!
