use vstd::prelude::*;
use vstd::arithmetic::power::pow;

verus! {

/// One lexical unit of an expression.
#[derive(Debug, Clone, Copy, PartialEq, Eq, Structural)]
pub enum Token {
    Number(i32),
    Plus,
    Minus,
    Multiply,
    Divide,
    Power,
    LeftParen,
    RightParen,
}

/// How repeated uses of one operator group.
#[derive(Debug, Clone, Copy, PartialEq, Eq, Structural)]
pub enum Assoc {
    Left,
    Right,
}

pub open spec fn fits_i32(x: int) -> bool {
    i32::MIN <= x <= i32::MAX
}

/// Every token but a number takes part in operator dispatch.
pub open spec fn operator_like(t: Token) -> bool {
    !(t is Number)
}

/// The five tokens that combine two values.
pub open spec fn is_binary(t: Token) -> bool {
    t is Plus || t is Minus || t is Multiply || t is Divide || t is Power
}

pub open spec fn precedence_of(t: Token) -> int {
    match t {
        Token::Plus | Token::Minus => 1,
        Token::Multiply | Token::Divide => 2,
        Token::Power => 3,
        _ => 0,
    }
}

pub open spec fn assoc_of(t: Token) -> Assoc {
    if t is Power {
        Assoc::Right
    } else {
        Assoc::Left
    }
}

pub open spec fn abs(x: int) -> int {
    if x < 0 {
        -x
    } else {
        x
    }
}

/// Integer division that rounds toward zero.
pub open spec fn trunc_div(l: int, r: int) -> int {
    if (l < 0) == (r < 0) {
        abs(l) / abs(r)
    } else {
        -(abs(l) / abs(r))
    }
}

/// The exact value of `l t r`, before any range check.
pub open spec fn exact_value(t: Token, l: int, r: int) -> int {
    match t {
        Token::Plus => l + r,
        Token::Minus => l - r,
        Token::Multiply => l * r,
        Token::Divide => trunc_div(l, r),
        Token::Power => pow(l, r as nat),
        _ => 0,
    }
}

/// `l t r` has a value in `i32`: no division by zero, no negative
/// exponent, no overflow.
pub open spec fn defined(t: Token, l: int, r: int) -> bool {
    &&& (t is Divide ==> r != 0)
    &&& (t is Power ==> r >= 0)
    &&& fits_i32(exact_value(t, l, r))
}

/// Relies on `i32::checked_pow`: the power where it fits in `i32`, else `None`.
#[verifier::external_body]
fn checked_power(base: i32, exp: u32) -> (r: Option<i32>)
    ensures
        r == (if fits_i32(pow(base as int, exp as nat)) {
            Some(pow(base as int, exp as nat) as i32)
        } else {
            None
        }),
{
    base.checked_pow(exp)
}

impl Token {
    /// The character that an operator or parenthesis is written with.
    pub fn symbol(&self) -> (r: Option<char>)
        ensures
            match *self {
                Token::Number(_) => r is None,
                Token::Plus => r == Some('+'),
                Token::Minus => r == Some('-'),
                Token::Multiply => r == Some('*'),
                Token::Divide => r == Some('/'),
                Token::Power => r == Some('^'),
                Token::LeftParen => r == Some('('),
                Token::RightParen => r == Some(')'),
            },
    {
        match self {
            Token::Number(_) => None,
            Token::Plus => Some('+'),
            Token::Minus => Some('-'),
            Token::Multiply => Some('*'),
            Token::Divide => Some('/'),
            Token::Power => Some('^'),
            Token::LeftParen => Some('('),
            Token::RightParen => Some(')'),
        }
    }

    pub fn is_operator(&self) -> (r: bool)
        ensures
            r == operator_like(*self),
    {
        match self {
            Token::Number(_) => false,
            _ => true,
        }
    }

    pub fn precedence(&self) -> (r: i32)
        ensures
            r == precedence_of(*self),
    {
        match self {
            Token::Plus | Token::Minus => 1,
            Token::Multiply | Token::Divide => 2,
            Token::Power => 3,
            _ => 0,
        }
    }

    pub fn assoc(&self) -> (r: Assoc)
        ensures
            r == assoc_of(*self),
    {
        match self {
            Token::Power => Assoc::Right,
            _ => Assoc::Left,
        }
    }

    /// Whether `l self r` has a value in `i32`.
    pub fn is_defined(&self, l: i32, r: i32) -> (b: bool)
        requires
            is_binary(*self),
        ensures
            b == defined(*self, l as int, r as int),
    {
        match self {
            Token::Plus => l.checked_add(r).is_some(),
            Token::Minus => l.checked_sub(r).is_some(),
            Token::Multiply => l.checked_mul(r).is_some(),
            Token::Divide => {
                let q = l.checked_div(r);
                proof {
                    if r != 0 {
                        assert(q == (if fits_i32(trunc_div(l as int, r as int)) {
                            Some(trunc_div(l as int, r as int) as i32)
                        } else {
                            None::<i32>
                        }));
                    }
                }
                q.is_some()
            },
            _ => r >= 0 && checked_power(l, r as u32).is_some(),
        }
    }

    /// Applies a binary operator; any other token gives `None`.
    pub fn compute(&self, l: i32, r: i32) -> (res: Option<i32>)
        requires
            is_binary(*self) ==> defined(*self, l as int, r as int),
        ensures
            res == (if is_binary(*self) {
                Some(exact_value(*self, l as int, r as int) as i32)
            } else {
                None
            }),
    {
        match self {
            Token::Plus => Some(l + r),
            Token::Minus => Some(l - r),
            Token::Multiply => Some(l * r),
            Token::Divide => {
                let q = l.checked_div(r);
                assert(q == Some(trunc_div(l as int, r as int) as i32));
                q
            },
            Token::Power => checked_power(l, r as u32),
            _ => None,
        }
    }
}

} // verus!
