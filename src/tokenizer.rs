use vstd::prelude::*;
use crate::token::Token;

verus! {

/// The Unicode `White_Space` property.
pub open spec fn white_space(c: char) -> bool {
    let n = c as u32;
    ||| 0x9 <= n <= 0xd
    ||| n == 0x20
    ||| n == 0x85
    ||| n == 0xa0
    ||| n == 0x1680
    ||| 0x2000 <= n <= 0x200a
    ||| n == 0x2028
    ||| n == 0x2029
    ||| n == 0x202f
    ||| n == 0x205f
    ||| n == 0x3000
}

pub open spec fn is_digit(c: char) -> bool {
    '0' <= c <= '9'
}

pub open spec fn digit_value(c: char) -> int {
    c as u32 - '0' as u32
}

/// The token that a single character stands for, if any.
pub open spec fn operator_token(c: char) -> Option<Token> {
    if c == '+' {
        Some(Token::Plus)
    } else if c == '-' {
        Some(Token::Minus)
    } else if c == '*' {
        Some(Token::Multiply)
    } else if c == '/' {
        Some(Token::Divide)
    } else if c == '^' {
        Some(Token::Power)
    } else if c == '(' {
        Some(Token::LeftParen)
    } else if c == ')' {
        Some(Token::RightParen)
    } else {
        None
    }
}

/// The first position at or after `i` that does not hold whitespace.
pub open spec fn skip_ws(s: Seq<char>, i: int) -> int
    decreases s.len() - i,
{
    if 0 <= i < s.len() && white_space(s[i]) {
        skip_ws(s, i + 1)
    } else {
        i
    }
}

/// The first position at or after `i` that does not hold a digit.
pub open spec fn digits_end(s: Seq<char>, i: int) -> int
    decreases s.len() - i,
{
    if 0 <= i < s.len() && is_digit(s[i]) {
        digits_end(s, i + 1)
    } else {
        i
    }
}

/// The decimal value of the digits `s[i..j]`.
pub open spec fn digits_value(s: Seq<char>, i: int, j: int) -> int
    decreases j - i,
{
    if j <= i {
        0
    } else {
        10 * digits_value(s, i, j - 1) + digit_value(s[j - 1])
    }
}

pub proof fn lemma_skip_ws_bounds(s: Seq<char>, i: int)
    requires
        0 <= i <= s.len(),
    ensures
        i <= skip_ws(s, i) <= s.len(),
        skip_ws(s, i) < s.len() ==> !white_space(s[skip_ws(s, i)]),
        forall|k: int| i <= k < skip_ws(s, i) ==> white_space(#[trigger] s[k]),
    decreases s.len() - i,
{
    if i < s.len() && white_space(s[i]) {
        lemma_skip_ws_bounds(s, i + 1);
    }
}

pub proof fn lemma_digits_end_bounds(s: Seq<char>, i: int)
    requires
        0 <= i <= s.len(),
    ensures
        i <= digits_end(s, i) <= s.len(),
        forall|k: int| i <= k < digits_end(s, i) ==> is_digit(#[trigger] s[k]),
    decreases s.len() - i,
{
    if i < s.len() && is_digit(s[i]) {
        lemma_digits_end_bounds(s, i + 1);
    }
}

/// The tokens of `s` from position `i` on. Whitespace is skipped; the
/// sequence ends at the end of the text, at a character that starts no
/// token, or at a number too large for `i32`.
pub open spec fn lex_from(s: Seq<char>, i: int) -> Seq<Token>
    decreases s.len() - i,
{
    if i < 0 || i >= s.len() {
        seq![]
    } else {
        let j = skip_ws(s, i);
        proof {
            lemma_skip_ws_bounds(s, i);
        }
        if j >= s.len() {
            seq![]
        } else if is_digit(s[j]) {
            let k = digits_end(s, j);
            proof {
                lemma_digits_end_bounds(s, j + 1);
            }
            let v = digits_value(s, j, k);
            if v <= i32::MAX {
                seq![Token::Number(v as i32)] + lex_from(s, k)
            } else {
                seq![]
            }
        } else {
            match operator_token(s[j]) {
                Some(t) => seq![t] + lex_from(s, j + 1),
                None => seq![],
            }
        }
    }
}

/// Each token takes at least one character.
pub proof fn lemma_lex_len(s: Seq<char>, i: int)
    requires
        0 <= i <= s.len(),
    ensures
        lex_from(s, i).len() <= s.len() - i,
    decreases s.len() - i,
{
    if i < s.len() {
        lemma_skip_ws_bounds(s, i);
        let j = skip_ws(s, i);
        if j < s.len() {
            if is_digit(s[j]) {
                lemma_digits_end_bounds(s, j + 1);
                lemma_lex_len(s, digits_end(s, j));
            } else {
                lemma_lex_len(s, j + 1);
            }
        }
    }
}

/// The tokens of a whole text.
pub open spec fn lex(s: Seq<char>) -> Seq<Token> {
    lex_from(s, 0)
}

/// Relies on `char::is_whitespace`: true exactly for `White_Space` characters.
#[verifier::external_body]
fn is_space(c: char) -> (r: bool)
    ensures
        r == white_space(c),
{
    c.is_whitespace()
}

/// A forward-only cursor over the characters of a text, producing tokens.
pub struct Tokenizer {
    chars: Vec<char>,
    pos: usize,
    done: bool,
}

impl Tokenizer {
    /// The cursor lies within the text.
    pub open spec fn wf(&self) -> bool {
        0 <= self.cursor() <= self.text().len()
    }

    /// The characters of the text.
    pub closed spec fn text(&self) -> Seq<char> {
        self.chars@
    }

    /// The position of the cursor in the text.
    pub closed spec fn cursor(&self) -> int {
        self.pos as int
    }

    /// Whether the tokens have run out.
    pub closed spec fn finished(&self) -> bool {
        self.done
    }

    /// The tokens not yet produced.
    pub closed spec fn view(&self) -> Seq<Token> {
        if self.done {
            seq![]
        } else {
            lex_from(self.chars@, self.pos as int)
        }
    }

    /// A tokenizer at the start of `expr`.
    pub fn new(expr: &str) -> (t: Self)
        ensures
            t.wf(),
            t.text() == expr@,
            t.cursor() == 0,
            !t.finished(),
            t@ == lex(expr@),
            t@.len() <= expr@.len(),
    {
        let mut chars: Vec<char> = Vec::new();
        for c in it: expr.chars()
            invariant
                chars@ == it.seq().take(it.index() as int),
        {
            chars.push(c);
            assert(chars@ =~= it.seq().take(it.index() as int + 1));
        }
        assert(chars@ =~= expr@);
        proof {
            lemma_lex_len(expr@, 0);
        }
        Tokenizer { chars, pos: 0, done: false }
    }

    /// Advances past whitespace.
    pub fn consume_whitespaces(&mut self)
        requires
            old(self).wf(),
        ensures
            final(self).wf(),
            final(self).text() == old(self).text(),
            final(self).finished() == old(self).finished(),
            final(self).cursor() == skip_ws(old(self).text(), old(self).cursor()),
    {
        while self.pos < self.chars.len() && is_space(self.chars[self.pos])
            invariant
                self.wf(),
                self.chars == old(self).chars,
                self.done == old(self).done,
                skip_ws(self.chars@, self.pos as int) == skip_ws(old(self).chars@, old(self).pos as int),
            decreases self.chars.len() - self.pos,
        {
            self.pos = self.pos + 1;
        }
    }

    /// Reads the longest run of digits at the cursor as a number; `None`
    /// where there is none or its value does not fit in `i32`.
    pub fn scan_numbers(&mut self) -> (r: Option<Token>)
        requires
            old(self).wf(),
        ensures
            final(self).wf(),
            final(self).text() == old(self).text(),
            final(self).finished() == old(self).finished(),
            final(self).cursor() == digits_end(old(self).text(), old(self).cursor()),
            ({
                let s = old(self).text();
                let i = old(self).cursor();
                let v = digits_value(s, i, digits_end(s, i));
                r == if digits_end(s, i) > i && v <= i32::MAX {
                    Some(Token::Number(v as i32))
                } else {
                    None
                }
            }),
    {
        let ghost s = self.chars@;
        let ghost start = self.pos as int;
        let first = self.pos;
        let mut value: i32 = 0;
        let mut fits = true;
        while self.pos < self.chars.len() && self.chars[self.pos] >= '0' && self.chars[self.pos]
            <= '9'
            invariant
                self.wf(),
                self.chars == old(self).chars,
                self.done == old(self).done,
                s == self.chars@,
                start <= self.pos,
                digits_end(s, self.pos as int) == digits_end(s, start),
                forall|k: int| start <= k < self.pos ==> is_digit(#[trigger] s[k]),
                fits ==> value == digits_value(s, start, self.pos as int),
                !fits ==> digits_value(s, start, self.pos as int) > i32::MAX,
                digits_value(s, start, self.pos as int) >= 0,
            decreases self.chars.len() - self.pos,
        {
            let d = (self.chars[self.pos] as u32 - '0' as u32) as i32;
            let ghost before = digits_value(s, start, self.pos as int);
            assert(digits_value(s, start, self.pos + 1) == 10 * before + d);
            if fits {
                match value.checked_mul(10) {
                    Some(m) => match m.checked_add(d) {
                        Some(n) => {
                            value = n;
                        },
                        None => {
                            fits = false;
                        },
                    },
                    None => {
                        fits = false;
                    },
                }
            }
            self.pos = self.pos + 1;
        }
        if self.pos > first && fits {
            Some(Token::Number(value))
        } else {
            None
        }
    }

    /// Reads one character at the cursor as an operator or parenthesis.
    pub fn scan_operator(&mut self) -> (r: Option<Token>)
        requires
            old(self).wf(),
        ensures
            final(self).wf(),
            final(self).text() == old(self).text(),
            final(self).finished() == old(self).finished(),
            old(self).cursor() < old(self).text().len() ==> final(self).cursor() == old(self).cursor() + 1
                && r == operator_token(old(self).text()[old(self).cursor()]),
            old(self).cursor() >= old(self).text().len() ==> final(self).cursor() == old(self).cursor()
                && r is None,
    {
        if self.pos >= self.chars.len() {
            return None;
        }
        let c = self.chars[self.pos];
        self.pos = self.pos + 1;
        if c == '+' {
            Some(Token::Plus)
        } else if c == '-' {
            Some(Token::Minus)
        } else if c == '*' {
            Some(Token::Multiply)
        } else if c == '/' {
            Some(Token::Divide)
        } else if c == '^' {
            Some(Token::Power)
        } else if c == '(' {
            Some(Token::LeftParen)
        } else if c == ')' {
            Some(Token::RightParen)
        } else {
            None
        }
    }

    /// Produces the next token, or `None` once the tokens are exhausted.
    pub fn next(&mut self) -> (r: Option<Token>)
        requires
            old(self).wf(),
        ensures
            final(self).wf(),
            final(self).text() == old(self).text(),
            old(self)@.len() == 0 ==> r is None && final(self)@.len() == 0,
            old(self)@.len() > 0 ==> r == Some(old(self)@[0]) && final(self)@ == old(self)@.drop_first(),
            final(self).finished() == (old(self).finished() || r is None),
            old(self).finished() ==> final(self).cursor() == old(self).cursor(),
            !old(self).finished() ==> ({
                let s = old(self).text();
                let j = skip_ws(s, old(self).cursor());
                if j >= s.len() {
                    final(self).cursor() == j
                } else if is_digit(s[j]) {
                    final(self).cursor() == digits_end(s, j)
                } else {
                    final(self).cursor() == j + 1
                }
            }),
            old(self).cursor() <= final(self).cursor(),
    {
        if self.done {
            return None;
        }
        let ghost s = self.chars@;
        let ghost i = self.pos as int;
        proof {
            lemma_skip_ws_bounds(s, i);
        }
        self.consume_whitespaces();
        if self.pos >= self.chars.len() {
            self.done = true;
            return None;
        }
        let c = self.chars[self.pos];
        let r = if c >= '0' && c <= '9' {
            proof {
                lemma_digits_end_bounds(s, self.pos + 1);
            }
            self.scan_numbers()
        } else {
            self.scan_operator()
        };
        if r.is_none() {
            self.done = true;
        }
        r
    }

    /// Produces all remaining tokens, in order.
    pub fn collect_tokens(&mut self) -> (r: Vec<Token>)
        requires
            old(self).wf(),
        ensures
            final(self).wf(),
            r@ == old(self)@,
            final(self)@.len() == 0,
    {
        let mut out: Vec<Token> = Vec::new();
        loop
            invariant
                self.wf(),
                out@ + self@ == old(self)@,
            decreases self@.len(),
        {
            let ghost before = self@;
            match self.next() {
                Some(t) => {
                    out.push(t);
                    assert(out@ + self@ =~= old(self)@);
                },
                None => {
                    assert(out@ =~= old(self)@);
                    return out;
                },
            }
        }
    }
}

} // verus!
