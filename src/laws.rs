use vstd::prelude::*;
use crate::token::{assoc_of, defined, exact_value, is_binary, operator_like, precedence_of, Assoc, Token};
use crate::expr::{atom_at, climb, eval_from, expr_at, faults, reports, value_of, ExprError, Outcome};
use crate::tokenizer::{
    digits_end, digits_value, is_digit, lemma_digits_end_bounds, lemma_skip_ws_bounds, lex, lex_from,
    skip_ws, white_space,
};

verus! {

/// An arithmetic formula as a tree.
pub enum Formula {
    Num(i32),
    /// Two operands joined by a binary operator.
    Op(Box<Formula>, Token, Box<Formula>),
    /// A formula in an extra pair of parentheses.
    Group(Box<Formula>),
}

/// The tokens of a formula, with each operator and its two operands in one
/// pair of parentheses.
pub open spec fn render(f: Formula) -> Seq<Token>
    decreases f,
{
    match f {
        Formula::Num(n) => seq![Token::Number(n)],
        Formula::Op(l, t, r) => seq![Token::LeftParen] + render(*l) + seq![t] + render(*r) + seq![
            Token::RightParen,
        ],
        Formula::Group(e) => seq![Token::LeftParen] + render(*e) + seq![Token::RightParen],
    }
}

/// The value of a formula by ordinary infix arithmetic, or `None` where a
/// step has no value in `i32`.
pub open spec fn formula_value(f: Formula) -> Option<int>
    decreases f,
{
    match f {
        Formula::Num(n) => Some(n as int),
        Formula::Op(l, t, r) => match (formula_value(*l), formula_value(*r)) {
            (Some(a), Some(b)) => if is_binary(t) && defined(t, a, b) {
                Some(exact_value(t, a, b))
            } else {
                None
            },
            _ => None,
        },
        Formula::Group(e) => formula_value(*e),
    }
}

proof fn lemma_formula_atom(f: Formula, ts: Seq<Token>, p: int)
    requires
        0 <= p,
        p + render(f).len() <= ts.len(),
        ts.subrange(p, p + render(f).len()) == render(f),
        formula_value(f) is Some,
    ensures
        atom_at(ts, p) == Outcome::Value(formula_value(f).unwrap(), p + render(f).len()),
    decreases f,
{
    let n = render(f).len();
    assert(ts[p] == render(f)[0]);
    match f {
        Formula::Num(_) => {},
        Formula::Op(l, t, r) => {
            let rl = render(*l);
            let ll = rl.len() as int;
            let rr = render(*r);
            let lr = rr.len() as int;
            let p1 = p + 1 + ll;
            let p2 = p1 + 1 + lr;
            assert(ts.subrange(p + 1, p1) =~= rl) by {
                assert(render(f).subrange(1, 1 + ll) =~= rl);
            }
            assert(ts[p1] == render(f)[1 + ll]);
            assert(ts.subrange(p1 + 1, p2) =~= rr) by {
                assert(render(f).subrange(2 + ll, 2 + ll + lr) =~= rr);
            }
            assert(ts[p2] == render(f)[2 + ll + lr]);
            lemma_formula_atom(*l, ts, p + 1);
            lemma_formula_atom(*r, ts, p1 + 1);
            let a = formula_value(*l).unwrap();
            let b = formula_value(*r).unwrap();
            let next_min = if t is Power { 3int } else { crate::token::precedence_of(t) + 1 };
            assert(climb(ts, b, p2, next_min) == Outcome::Value(b, p2));
            assert(expr_at(ts, p1 + 1, next_min) == Outcome::Value(b, p2));
            assert(climb(ts, exact_value(t, a, b), p2, 1) == Outcome::Value(exact_value(t, a, b), p2));
            assert(climb(ts, a, p1, 1) == Outcome::Value(exact_value(t, a, b), p2));
            assert(expr_at(ts, p + 1, 1) == Outcome::Value(exact_value(t, a, b), p2));
        },
        Formula::Group(e) => {
            let re = render(*e);
            let le = re.len() as int;
            let p1 = p + 1 + le;
            assert(ts.subrange(p + 1, p1) =~= re) by {
                assert(render(f).subrange(1, 1 + le) =~= re);
            }
            assert(ts[p1] == render(f)[1 + le]);
            lemma_formula_atom(*e, ts, p + 1);
            let v = formula_value(*e).unwrap();
            assert(climb(ts, v, p1, 1) == Outcome::Value(v, p1));
            assert(expr_at(ts, p + 1, 1) == Outcome::Value(v, p1));
        },
    }
}

/// A fully parenthesized formula evaluates to its value by ordinary infix
/// arithmetic, wherever that value is defined.
pub proof fn lemma_formula_evaluation(f: Formula)
    requires
        formula_value(f) is Some,
    ensures
        eval_from(render(f), 0) == Outcome::Value(formula_value(f).unwrap(), render(f).len() as int),
{
    let ts = render(f);
    assert(ts.subrange(0, ts.len() as int) =~= ts);
    lemma_formula_atom(f, ts, 0);
    lemma_formula_nonempty(f);
    crate::expr::lemma_atom_advances(ts, 0);
    assert(climb(ts, formula_value(f).unwrap(), ts.len() as int, 1) == Outcome::Value(
        formula_value(f).unwrap(),
        ts.len() as int,
    ));
}

proof fn lemma_formula_nonempty(f: Formula)
    ensures
        render(f).len() > 0,
{
    match f {
        Formula::Num(_) => {},
        Formula::Op(l, t, r) => {},
        Formula::Group(e) => {},
    }
}

/// A token sequence in one more pair of parentheses.
pub open spec fn wrap(ts: Seq<Token>) -> Seq<Token> {
    seq![Token::LeftParen] + ts + seq![Token::RightParen]
}

proof fn lemma_wrap_expr(ts: Seq<Token>, p: int, min: int)
    requires
        min >= 1,
    ensures
        expr_at(ts, p, min) matches Outcome::Value(v, q) ==> expr_at(wrap(ts), p + 1, min)
            == Outcome::Value(v, q + 1),
    decreases ts.len() - p, 1int,
{
    if 0 <= p < ts.len() {
        assert(wrap(ts)[p + 1] == ts[p]);
        lemma_wrap_atom(ts, p);
        if let Outcome::Value(v, q) = atom_at(ts, p) {
            if p < q <= ts.len() {
                lemma_wrap_climb(ts, v, q, min);
            }
        }
    }
}

proof fn lemma_wrap_atom(ts: Seq<Token>, p: int)
    ensures
        atom_at(ts, p) matches Outcome::Value(v, q) ==> atom_at(wrap(ts), p + 1) == Outcome::Value(
            v,
            q + 1,
        ),
    decreases ts.len() - p, 0int,
{
    if 0 <= p < ts.len() {
        assert(wrap(ts)[p + 1] == ts[p]);
        if ts[p] is LeftParen {
            lemma_wrap_expr(ts, p + 1, 1);
            if let Outcome::Value(v, q) = expr_at(ts, p + 1, 1) {
                if 0 <= q < ts.len() {
                    assert(wrap(ts)[q + 1] == ts[q]);
                }
            }
        }
    }
}

proof fn lemma_wrap_climb(ts: Seq<Token>, lhs: int, p: int, min: int)
    requires
        0 <= p <= ts.len(),
        min >= 1,
    ensures
        climb(ts, lhs, p, min) matches Outcome::Value(v, q) ==> climb(wrap(ts), lhs, p + 1, min)
            == Outcome::Value(v, q + 1),
    decreases ts.len() - p, 2int,
{
    let w = wrap(ts);
    if p == ts.len() {
        assert(w[p + 1] == Token::RightParen);
    } else {
        assert(w[p + 1] == ts[p]);
        let t = ts[p];
        if operator_like(t) && precedence_of(t) >= min {
            let next_min = if assoc_of(t) == Assoc::Left {
                precedence_of(t) + 1
            } else {
                precedence_of(t)
            };
            lemma_wrap_expr(ts, p + 1, next_min);
            if let Outcome::Value(r, q) = expr_at(ts, p + 1, next_min) {
                if is_binary(t) && defined(t, lhs, r) && p < q <= ts.len() {
                    lemma_wrap_climb(ts, exact_value(t, lhs, r), q, min);
                }
            }
        }
    }
}

/// Putting a whole expression in one more pair of parentheses keeps its
/// value.
pub proof fn lemma_parentheses_keep_value(ts: Seq<Token>)
    requires
        eval_from(ts, 0) is Value,
    ensures
        eval_from(wrap(ts), 0) == moved(eval_from(ts, 0), 2),
{
    let w = wrap(ts);
    let n = ts.len() as int;
    lemma_wrap_expr(ts, 0, 1);
    crate::expr::lemma_value_advances(ts, 0, 1);
    assert(w[n + 1] == Token::RightParen);
    if let Outcome::Value(v, q) = expr_at(ts, 0, 1) {
        assert(atom_at(w, 0) == Outcome::Value(v, n + 2));
        assert(climb(w, v, n + 2, 1) == Outcome::Value(v, n + 2));
    }
}

/// Evaluation depends on the text alone: any two results that evaluating
/// one text may give agree, error or value.
pub proof fn lemma_evaluation_repeats(
    s: Seq<char>,
    first: Result<i32, ExprError>,
    second: Result<i32, ExprError>,
)
    requires
        reports(s, first),
        reports(s, second),
    ensures
        first is Ok <==> second is Ok,
        first matches Ok(a) ==> second matches Ok(b) && a == b,
{
}

/// `t` is `s` with one whitespace character put in at position `m`.
pub open spec fn inserted(s: Seq<char>, t: Seq<char>, m: int) -> bool {
    &&& 0 <= m <= s.len()
    &&& t.len() == s.len() + 1
    &&& white_space(t[m])
    &&& forall|k: int| 0 <= k < m ==> #[trigger] t[k] == s[k]
    &&& forall|k: int| m <= k < s.len() ==> #[trigger] t[k + 1] == s[k]
}

proof fn lemma_skip_after(s: Seq<char>, t: Seq<char>, m: int, k: int)
    requires
        inserted(s, t, m),
        m <= k <= s.len(),
    ensures
        skip_ws(t, k + 1) == skip_ws(s, k) + 1,
    decreases s.len() - k,
{
    if k < s.len() {
        assert(t[k + 1] == s[k]);
        if white_space(s[k]) {
            lemma_skip_after(s, t, m, k + 1);
        }
    }
}

proof fn lemma_digits_after(s: Seq<char>, t: Seq<char>, m: int, k: int)
    requires
        inserted(s, t, m),
        m <= k <= s.len(),
    ensures
        digits_end(t, k + 1) == digits_end(s, k) + 1,
    decreases s.len() - k,
{
    if k < s.len() {
        assert(t[k + 1] == s[k]);
        if is_digit(s[k]) {
            lemma_digits_after(s, t, m, k + 1);
        }
    }
}

proof fn lemma_value_after(s: Seq<char>, t: Seq<char>, m: int, j: int, e: int)
    requires
        inserted(s, t, m),
        m <= j <= e <= s.len(),
    ensures
        digits_value(t, j + 1, e + 1) == digits_value(s, j, e),
    decreases e - j,
{
    if j < e {
        let k = e - 1;
        assert(t[k + 1] == s[k]);
        lemma_value_after(s, t, m, j, e - 1);
    }
}

proof fn lemma_lex_after(s: Seq<char>, t: Seq<char>, m: int, k: int)
    requires
        inserted(s, t, m),
        m <= k <= s.len(),
    ensures
        lex_from(t, k + 1) == lex_from(s, k),
    decreases s.len() - k,
{
    if k < s.len() {
        lemma_skip_ws_bounds(s, k);
        lemma_skip_after(s, t, m, k);
        let j = skip_ws(s, k);
        if j < s.len() {
            assert(t[j + 1] == s[j]);
            if is_digit(s[j]) {
                lemma_digits_end_bounds(s, j + 1);
                lemma_digits_after(s, t, m, j);
                let e = digits_end(s, j);
                lemma_value_after(s, t, m, j, e);
                lemma_lex_after(s, t, m, e);
            } else {
                lemma_lex_after(s, t, m, j + 1);
            }
        }
    }
}

proof fn lemma_skip_before(s: Seq<char>, t: Seq<char>, m: int, i: int)
    requires
        inserted(s, t, m),
        0 <= i <= m,
    ensures
        skip_ws(s, i) < m ==> skip_ws(t, i) == skip_ws(s, i),
        skip_ws(s, i) >= m ==> skip_ws(s, i) == skip_ws(s, m) && skip_ws(t, i) == skip_ws(t, m),
    decreases m - i,
{
    lemma_skip_ws_bounds(s, i);
    if i < m {
        assert(t[i] == s[i]);
        if white_space(s[i]) {
            lemma_skip_before(s, t, m, i + 1);
        }
    }
}

proof fn lemma_digits_before(s: Seq<char>, t: Seq<char>, m: int, i: int)
    requires
        inserted(s, t, m),
        0 <= i <= m,
    ensures
        digits_end(s, i) < m ==> digits_end(t, i) == digits_end(s, i),
        digits_end(s, i) >= m ==> digits_end(s, i) == digits_end(s, m) && digits_end(t, i)
            == digits_end(t, m),
    decreases m - i,
{
    lemma_digits_end_bounds(s, i);
    if i < m {
        assert(t[i] == s[i]);
        if is_digit(s[i]) {
            lemma_digits_before(s, t, m, i + 1);
        }
    }
}

proof fn lemma_value_before(s: Seq<char>, t: Seq<char>, m: int, i: int, e: int)
    requires
        inserted(s, t, m),
        0 <= i <= e <= m,
    ensures
        digits_value(t, i, e) == digits_value(s, i, e),
    decreases e - i,
{
    if i < e {
        assert(t[e - 1] == s[e - 1]);
        lemma_value_before(s, t, m, i, e - 1);
    }
}

proof fn lemma_lex_restart(s: Seq<char>, i: int)
    requires
        0 <= i <= s.len(),
    ensures
        lex_from(s, i) == lex_from(s, skip_ws(s, i)),
{
    lemma_skip_ws_bounds(s, i);
    let j = skip_ws(s, i);
    lemma_skip_ws_bounds(s, j);
    if j < s.len() {
        assert(skip_ws(s, j) == j);
    }
}

proof fn lemma_lex_before(s: Seq<char>, t: Seq<char>, m: int, i: int)
    requires
        inserted(s, t, m),
        0 <= i <= m,
        !(0 < m < s.len() && is_digit(s[m - 1]) && is_digit(s[m])),
    ensures
        lex_from(t, i) == lex_from(s, i),
    decreases m - i,
{
    lemma_skip_ws_bounds(s, m);
    lemma_skip_ws_bounds(t, m);
    if i == m {
        lemma_lex_restart(t, m);
        lemma_skip_after(s, t, m, m);
        lemma_lex_after(s, t, m, skip_ws(s, m));
        lemma_lex_restart(s, m);
    } else {
        lemma_skip_ws_bounds(s, i);
        lemma_skip_before(s, t, m, i);
        let j = skip_ws(s, i);
        if j >= m {
            lemma_lex_restart(s, i);
            lemma_lex_restart(s, m);
            lemma_lex_restart(t, i);
            lemma_lex_restart(t, m);
            lemma_lex_before(s, t, m, m);
        } else {
            assert(t[j] == s[j]);
            if is_digit(s[j]) {
                lemma_digits_end_bounds(s, j + 1);
                lemma_digits_end_bounds(s, j);
                lemma_digits_before(s, t, m, j);
                let e = digits_end(s, j);
                if e >= m {
                    assert(is_digit(s[m - 1]));
                    assert(digits_end(t, m) == m);
                    assert(digits_end(s, m) == m);
                }
                lemma_value_before(s, t, m, j, e);
                lemma_lex_before(s, t, m, e);
            } else {
                lemma_lex_before(s, t, m, j + 1);
            }
        }
    }
}

/// A whitespace character put in anywhere but inside a number changes no
/// token, so no result.
pub proof fn lemma_whitespace_keeps_result(a: Seq<char>, w: char, b: Seq<char>)
    requires
        white_space(w),
        !(a.len() > 0 && b.len() > 0 && is_digit(a.last()) && is_digit(b[0])),
    ensures
        lex(a + seq![w] + b) == lex(a + b),
        value_of(a + seq![w] + b) == value_of(a + b),
        faults(a + seq![w] + b) == faults(a + b),
{
    let s = a + b;
    let t = a + seq![w] + b;
    let m = a.len() as int;
    assert(t[m] == w);
    assert forall|k: int| m <= k < s.len() implies #[trigger] t[k + 1] == s[k] by {
        assert(t[k + 1] == b[k - m]);
    }
    assert(inserted(s, t, m));
    if 0 < m < s.len() {
        assert(s[m - 1] == a.last());
        assert(s[m] == b[0]);
    }
    lemma_lex_before(s, t, m, 0);
}

/// `b` holds the tokens of `a` from `lo` on, `d` places further on, and
/// nothing after them.
pub open spec fn shifted_suffix(a: Seq<Token>, b: Seq<Token>, lo: int, d: int) -> bool {
    &&& 0 <= lo <= a.len()
    &&& 0 <= d
    &&& b.len() == a.len() + d
    &&& forall|k: int| lo <= k < a.len() ==> #[trigger] b[k + d] == a[k]
}

/// An outcome with its position moved `d` places on.
pub open spec fn moved(o: Outcome, d: int) -> Outcome {
    match o {
        Outcome::Value(v, q) => Outcome::Value(v, q + d),
        _ => o,
    }
}

proof fn lemma_suffix_expr(a: Seq<Token>, b: Seq<Token>, lo: int, d: int, r: int, min: int)
    requires
        shifted_suffix(a, b, lo, d),
        lo <= r,
    ensures
        expr_at(b, r + d, min) == moved(expr_at(a, r, min), d),
    decreases a.len() - r, 1int,
{
    if r < a.len() {
        lemma_suffix_atom(a, b, lo, d, r);
        if let Outcome::Value(v, q) = atom_at(a, r) {
            if r < q <= a.len() {
                lemma_suffix_climb(a, b, lo, d, v, q, min);
            }
        }
    }
}

proof fn lemma_suffix_atom(a: Seq<Token>, b: Seq<Token>, lo: int, d: int, r: int)
    requires
        shifted_suffix(a, b, lo, d),
        lo <= r,
    ensures
        atom_at(b, r + d) == moved(atom_at(a, r), d),
    decreases a.len() - r, 0int,
{
    if r < a.len() {
        assert(b[r + d] == a[r]);
        if a[r] is LeftParen {
            lemma_suffix_expr(a, b, lo, d, r + 1, 1);
            crate::expr::lemma_value_advances(a, r + 1, 1);
            if let Outcome::Value(v, q) = expr_at(a, r + 1, 1) {
                if lo <= q < a.len() {
                    assert(b[q + d] == a[q]);
                }
            }
        }
    }
}

proof fn lemma_suffix_climb(a: Seq<Token>, b: Seq<Token>, lo: int, d: int, lhs: int, r: int, min: int)
    requires
        shifted_suffix(a, b, lo, d),
        lo <= r,
    ensures
        climb(b, lhs, r + d, min) == moved(climb(a, lhs, r, min), d),
    decreases a.len() - r, 2int,
{
    if r < a.len() {
        assert(b[r + d] == a[r]);
        let t = a[r];
        if operator_like(t) && precedence_of(t) >= min {
            let next_min = if assoc_of(t) == Assoc::Left {
                precedence_of(t) + 1
            } else {
                precedence_of(t)
            };
            lemma_suffix_expr(a, b, lo, d, r + 1, next_min);
            if let Outcome::Value(x, q) = expr_at(a, r + 1, next_min) {
                if is_binary(t) && defined(t, lhs, x) && r < q <= a.len() {
                    lemma_suffix_climb(a, b, lo, d, exact_value(t, lhs, x), q, min);
                }
            }
        }
    }
}

/// `b` holds the tokens `a[lo..hi]`, one place further on.
pub open spec fn shifted_segment(a: Seq<Token>, b: Seq<Token>, lo: int, hi: int) -> bool {
    &&& 0 <= lo <= hi <= a.len()
    &&& hi + 1 <= b.len()
    &&& forall|k: int| lo <= k < hi ==> #[trigger] b[k + 1] == a[k]
}

proof fn lemma_segment_expr(a: Seq<Token>, b: Seq<Token>, lo: int, hi: int, r: int, min: int)
    requires
        shifted_segment(a, b, lo, hi),
        lo <= r,
    ensures
        ({
            match expr_at(a, r, min) {
                Outcome::Value(v, q) => q < hi ==> expr_at(b, r + 1, min) == Outcome::Value(v, q + 1),
                _ => true,
            }
        }),
    decreases a.len() - r, 1int,
{
    crate::expr::lemma_value_advances(a, r, min);
    if r < a.len() {
        lemma_segment_atom(a, b, lo, hi, r);
        crate::expr::lemma_atom_advances(a, r);
        if let Outcome::Value(v, q) = atom_at(a, r) {
            if r < q <= a.len() {
                lemma_segment_climb(a, b, lo, hi, v, q, min);
                crate::expr::lemma_climb_advances(a, v, q, min);
            }
        }
    }
}

proof fn lemma_segment_atom(a: Seq<Token>, b: Seq<Token>, lo: int, hi: int, r: int)
    requires
        shifted_segment(a, b, lo, hi),
        lo <= r,
    ensures
        ({
            match atom_at(a, r) {
                Outcome::Value(v, q) => q <= hi ==> atom_at(b, r + 1) == Outcome::Value(v, q + 1),
                _ => true,
            }
        }),
    decreases a.len() - r, 0int,
{
    crate::expr::lemma_atom_advances(a, r);
    if r < a.len() && r < hi {
        assert(b[r + 1] == a[r]);
        if a[r] is LeftParen {
            lemma_segment_expr(a, b, lo, hi, r + 1, 1);
            crate::expr::lemma_value_advances(a, r + 1, 1);
            if let Outcome::Value(v, q) = expr_at(a, r + 1, 1) {
                if q < hi {
                    assert(b[q + 1] == a[q]);
                }
            }
        }
    }
}

proof fn lemma_segment_climb(a: Seq<Token>, b: Seq<Token>, lo: int, hi: int, lhs: int, r: int, min: int)
    requires
        shifted_segment(a, b, lo, hi),
        lo <= r,
    ensures
        ({
            match climb(a, lhs, r, min) {
                Outcome::Value(v, q) => q < hi ==> climb(b, lhs, r + 1, min) == Outcome::Value(v, q + 1),
                _ => true,
            }
        }),
    decreases a.len() - r, 2int,
{
    if r <= a.len() {
        crate::expr::lemma_climb_advances(a, lhs, r, min);
    }
    if r < a.len() && r < hi {
        assert(b[r + 1] == a[r]);
        let t = a[r];
        if operator_like(t) && precedence_of(t) >= min {
            let next_min = if assoc_of(t) == Assoc::Left {
                precedence_of(t) + 1
            } else {
                precedence_of(t)
            };
            lemma_segment_expr(a, b, lo, hi, r + 1, next_min);
            if let Outcome::Value(x, q) = expr_at(a, r + 1, next_min) {
                if is_binary(t) && defined(t, lhs, x) && r < q <= a.len() {
                    lemma_segment_climb(a, b, lo, hi, exact_value(t, lhs, x), q, min);
                    crate::expr::lemma_climb_advances(a, exact_value(t, lhs, x), q, min);
                }
            }
        }
    }
}

/// The tokens with one more pair of parentheses around `ts[p..q]`.
pub open spec fn wrap_at(ts: Seq<Token>, p: int, q: int) -> Seq<Token> {
    ts.subrange(0, p) + seq![Token::LeftParen] + ts.subrange(p, q) + seq![Token::RightParen]
        + ts.subrange(q, ts.len() as int)
}

/// An outcome read in the tokens with `ts[p..q]` wrapped: positions from
/// `q` on move two places.
pub open spec fn across(o: Outcome, p: int) -> Outcome {
    match o {
        Outcome::Value(v, e) => if e <= p {
            Outcome::Value(v, e)
        } else {
            Outcome::Value(v, e + 2)
        },
        _ => o,
    }
}

/// The facts about `wrap_at` that the proofs below use.
pub open spec fn wrapped_atom(a: Seq<Token>, w: Seq<Token>, p: int, q: int) -> bool {
    &&& atom_at(a, p) is Value
    &&& atom_at(a, p)->Value_1 == q
    &&& 0 <= p < q <= a.len()
    &&& w.len() == a.len() + 2
    &&& forall|k: int| 0 <= k < p ==> #[trigger] w[k] == a[k]
    &&& w[p] == Token::LeftParen
    &&& w[q + 1] == Token::RightParen
    &&& shifted_segment(a, w, p, q)
    &&& shifted_suffix(a, w, q, 2)
}

/// Outcomes from positions up to `p` never end strictly inside `(p, q)`.
pub open spec fn lands_outside(o: Outcome, p: int, q: int) -> bool {
    o matches Outcome::Value(_, e) ==> e <= p || q <= e
}

proof fn lemma_wrapped_atom(a: Seq<Token>, w: Seq<Token>, p: int, q: int)
    requires
        wrapped_atom(a, w, p, q),
    ensures
        atom_at(w, p) == Outcome::Value(atom_at(a, p)->Value_0, q + 2),
{
    let v = atom_at(a, p)->Value_0;
    lemma_segment_atom(a, w, p, q, p);
    assert(climb(w, v, q + 1, 1) == Outcome::Value(v, q + 1));
    assert(expr_at(w, p + 1, 1) == Outcome::Value(v, q + 1));
}

proof fn lemma_main_expr(a: Seq<Token>, w: Seq<Token>, p: int, q: int, r: int, min: int)
    requires
        wrapped_atom(a, w, p, q),
        0 <= r <= p,
        min >= 1,
    ensures
        expr_at(w, r, min) == across(expr_at(a, r, min), p),
        lands_outside(expr_at(a, r, min), p, q),
    decreases a.len() - r, 1int,
{
    lemma_main_atom(a, w, p, q, r);
    crate::expr::lemma_atom_advances(a, r);
    if let Outcome::Value(x, e) = atom_at(a, r) {
        if e <= p {
            lemma_main_climb(a, w, p, q, x, e, min);
        } else {
            lemma_suffix_climb(a, w, q, 2, x, e, min);
            crate::expr::lemma_climb_advances(a, x, e, min);
        }
    }
}

proof fn lemma_main_atom(a: Seq<Token>, w: Seq<Token>, p: int, q: int, r: int)
    requires
        wrapped_atom(a, w, p, q),
        0 <= r <= p,
    ensures
        atom_at(w, r) == across(atom_at(a, r), p),
        lands_outside(atom_at(a, r), p, q),
    decreases a.len() - r, 0int,
{
    if r == p {
        lemma_wrapped_atom(a, w, p, q);
    } else {
        assert(w[r] == a[r]);
        if a[r] is LeftParen {
            lemma_main_expr(a, w, p, q, r + 1, 1);
            crate::expr::lemma_value_advances(a, r + 1, 1);
            if let Outcome::Value(x, e) = expr_at(a, r + 1, 1) {
                if e < p {
                    assert(w[e] == a[e]);
                } else if q <= e < a.len() {
                    assert(w[e + 2] == a[e]);
                }
            }
        }
    }
}

proof fn lemma_main_climb(a: Seq<Token>, w: Seq<Token>, p: int, q: int, lhs: int, r: int, min: int)
    requires
        wrapped_atom(a, w, p, q),
        0 <= r <= p,
        min >= 1,
    ensures
        climb(w, lhs, r, min) == across(climb(a, lhs, r, min), p),
        lands_outside(climb(a, lhs, r, min), p, q),
    decreases a.len() - r, 2int,
{
    if r < p {
        assert(w[r] == a[r]);
        let t = a[r];
        if operator_like(t) && precedence_of(t) >= min {
            let next_min = if assoc_of(t) == Assoc::Left {
                precedence_of(t) + 1
            } else {
                precedence_of(t)
            };
            lemma_main_expr(a, w, p, q, r + 1, next_min);
            crate::expr::lemma_value_advances(a, r + 1, next_min);
            if let Outcome::Value(x, e) = expr_at(a, r + 1, next_min) {
                if is_binary(t) && defined(t, lhs, x) {
                    let y = exact_value(t, lhs, x);
                    if e <= p {
                        lemma_main_climb(a, w, p, q, y, e, min);
                    } else {
                        lemma_suffix_climb(a, w, q, 2, y, e, min);
                        crate::expr::lemma_climb_advances(a, y, e, min);
                    }
                }
            }
        }
    }
}

/// Putting one more pair of parentheses around an atom (a number, or an
/// expression in parentheses) anywhere in the tokens keeps the outcome of
/// evaluating them.
pub proof fn lemma_parenthesized_atom_keeps_result(ts: Seq<Token>, p: int)
    requires
        atom_at(ts, p) is Value,
    ensures
        eval_from(wrap_at(ts, p, atom_at(ts, p)->Value_1), 0) == moved(eval_from(ts, 0), 2),
{
    let q = atom_at(ts, p)->Value_1;
    let w = wrap_at(ts, p, q);
    let n = ts.len() as int;
    crate::expr::lemma_atom_advances(ts, p);
    assert(w[p] == Token::LeftParen);
    assert(w[q + 1] == Token::RightParen);
    assert forall|k: int| 0 <= k < p implies #[trigger] w[k] == ts[k] by {}
    assert forall|k: int| p <= k < q implies #[trigger] w[k + 1] == ts[k] by {}
    assert forall|k: int| q <= k < n implies #[trigger] w[k + 2] == ts[k] by {}
    assert(wrapped_atom(ts, w, p, q));
    lemma_main_expr(ts, w, p, q, 0, 1);
}

/// The tokens `a op1 b op2 c`.
pub open spec fn chain(a: i32, op1: Token, b: i32, op2: Token, c: i32) -> Seq<Token> {
    seq![Token::Number(a), op1, Token::Number(b), op2, Token::Number(c)]
}

/// Two operators of one level other than `^` group to the left:
/// `a op1 b op2 c` is `(a op1 b) op2 c`.
pub proof fn lemma_same_level_groups_left(a: i32, op1: Token, b: i32, op2: Token, c: i32, min: int)
    requires
        is_binary(op1),
        is_binary(op2),
        !(op1 is Power),
        precedence_of(op1) == precedence_of(op2),
        1 <= min <= precedence_of(op1),
        defined(op1, a as int, b as int),
        defined(op2, exact_value(op1, a as int, b as int), c as int),
    ensures
        expr_at(chain(a, op1, b, op2, c), 0, min) == Outcome::Value(
            exact_value(op2, exact_value(op1, a as int, b as int), c as int),
            5,
        ),
        eval_from(chain(a, op1, b, op2, c), 0) == Outcome::Value(
            exact_value(op2, exact_value(op1, a as int, b as int), c as int),
            5,
        ),
{
    let ts = chain(a, op1, b, op2, c);
    let nm = precedence_of(op1) + 1;
    let v1 = exact_value(op1, a as int, b as int);
    let v2 = exact_value(op2, v1, c as int);
    assert(ts[1] == op1 && ts[3] == op2 && ts[4] == Token::Number(c) && ts[2] == Token::Number(b));
    assert(climb(ts, c as int, 5, nm) == Outcome::Value(c as int, 5));
    assert(expr_at(ts, 4, nm) == Outcome::Value(c as int, 5));
    assert(climb(ts, b as int, 3, nm) == Outcome::Value(b as int, 3));
    assert(expr_at(ts, 2, nm) == Outcome::Value(b as int, 3));
    assert(ts[0] == Token::Number(a));
    assert(atom_at(ts, 0) == Outcome::Value(a as int, 1));
    assert(climb(ts, v2, 5, min) == Outcome::Value(v2, 5));
    assert(climb(ts, v1, 3, min) == Outcome::Value(v2, 5));
    assert(climb(ts, a as int, 1, min) == Outcome::Value(v2, 5));
    assert(expr_at(ts, 0, min) == Outcome::Value(v2, 5));
    assert(climb(ts, v2, 5, 1) == Outcome::Value(v2, 5));
    assert(climb(ts, v1, 3, 1) == Outcome::Value(v2, 5));
    assert(climb(ts, a as int, 1, 1) == Outcome::Value(v2, 5));
    assert(expr_at(ts, 0, 1) == Outcome::Value(v2, 5));
}

/// `^` groups to the right: `a ^ b ^ c` is `a ^ (b ^ c)`.
pub proof fn lemma_power_groups_right(a: i32, b: i32, c: i32, min: int)
    requires
        1 <= min <= 3,
        defined(Token::Power, b as int, c as int),
        defined(Token::Power, a as int, exact_value(Token::Power, b as int, c as int)),
    ensures
        expr_at(chain(a, Token::Power, b, Token::Power, c), 0, min) == Outcome::Value(
            exact_value(Token::Power, a as int, exact_value(Token::Power, b as int, c as int)),
            5,
        ),
        eval_from(chain(a, Token::Power, b, Token::Power, c), 0) == Outcome::Value(
            exact_value(Token::Power, a as int, exact_value(Token::Power, b as int, c as int)),
            5,
        ),
{
    let ts = chain(a, Token::Power, b, Token::Power, c);
    let bc = exact_value(Token::Power, b as int, c as int);
    let v = exact_value(Token::Power, a as int, bc);
    assert(ts[1] == Token::Power && ts[3] == Token::Power && ts[4] == Token::Number(c) && ts[2]
        == Token::Number(b));
    assert(climb(ts, c as int, 5, 3) == Outcome::Value(c as int, 5));
    assert(expr_at(ts, 4, 3) == Outcome::Value(c as int, 5));
    assert(climb(ts, bc, 5, 3) == Outcome::Value(bc, 5));
    assert(climb(ts, b as int, 3, 3) == Outcome::Value(bc, 5));
    assert(expr_at(ts, 2, 3) == Outcome::Value(bc, 5));
    assert(ts[0] == Token::Number(a));
    assert(atom_at(ts, 0) == Outcome::Value(a as int, 1));
    assert(climb(ts, v, 5, min) == Outcome::Value(v, 5));
    assert(climb(ts, a as int, 1, min) == Outcome::Value(v, 5));
    assert(expr_at(ts, 0, min) == Outcome::Value(v, 5));
    assert(climb(ts, v, 5, 1) == Outcome::Value(v, 5));
    assert(climb(ts, a as int, 1, 1) == Outcome::Value(v, 5));
    assert(expr_at(ts, 0, 1) == Outcome::Value(v, 5));
}

/// Every character of `g` is whitespace.
pub open spec fn blank(g: Seq<char>) -> bool {
    forall|k: int| 0 <= k < g.len() ==> white_space(#[trigger] g[k])
}

/// A run of whitespace put in anywhere but inside a number changes no
/// token.
pub proof fn lemma_whitespace_run_keeps_tokens(a: Seq<char>, ws: Seq<char>, b: Seq<char>)
    requires
        blank(ws),
        !(a.len() > 0 && b.len() > 0 && is_digit(a.last()) && is_digit(b[0])),
    ensures
        lex(a + ws + b) == lex(a + b),
    decreases ws.len(),
{
    if ws.len() == 0 {
        assert(a + ws + b =~= a + b);
    } else {
        let front = ws.drop_last();
        let w = ws.last();
        assert(white_space(ws[ws.len() - 1]));
        let a2 = a + front;
        if front.len() > 0 {
            assert(white_space(front[front.len() - 1]));
            assert(a2.last() == front.last());
        } else {
            assert(a2 =~= a);
        }
        lemma_whitespace_keeps_result(a2, w, b);
        assert(a + ws + b =~= a2 + seq![w] + b);
        assert(a2 + b =~= a + front + b);
        lemma_whitespace_run_keeps_tokens(a, front, b);
    }
}

/// The pieces one after another, each after its gap: `g0 p0 g1 p1 ...`.
pub open spec fn joined(pieces: Seq<Seq<char>>, gaps: Seq<Seq<char>>) -> Seq<char>
    decreases pieces.len(),
{
    if pieces.len() == 0 {
        seq![]
    } else {
        joined(pieces.drop_last(), gaps) + gaps[pieces.len() - 1] + pieces.last()
    }
}

/// The pieces one after another with no gaps.
pub open spec fn flat(pieces: Seq<Seq<char>>) -> Seq<char>
    decreases pieces.len(),
{
    if pieces.len() == 0 {
        seq![]
    } else {
        flat(pieces.drop_last()) + pieces.last()
    }
}

/// The pieces with a gap before each and one after the last.
pub open spec fn spread(pieces: Seq<Seq<char>>, gaps: Seq<Seq<char>>) -> Seq<char> {
    joined(pieces, gaps) + gaps[pieces.len() as int]
}

/// No piece is empty, and no two neighbouring pieces meet digit to digit.
pub open spec fn separable(pieces: Seq<Seq<char>>) -> bool {
    &&& forall|i: int| 0 <= i < pieces.len() ==> #[trigger] pieces[i].len() > 0
    &&& forall|i: int|
        1 <= i < pieces.len() ==> !(is_digit(pieces[i - 1].last()) && is_digit(#[trigger] pieces[i][0]))
}

/// Whitespace gaps of the right number, each all whitespace.
pub open spec fn blank_gaps(pieces: Seq<Seq<char>>, gaps: Seq<Seq<char>>) -> bool {
    &&& gaps.len() == pieces.len() + 1
    &&& forall|i: int| 0 <= i < gaps.len() ==> blank(#[trigger] gaps[i])
}

proof fn lemma_gaps_removed(pieces: Seq<Seq<char>>, gaps: Seq<Seq<char>>, rest: Seq<char>)
    requires
        separable(pieces),
        blank_gaps(pieces, gaps),
    ensures
        lex(joined(pieces, gaps) + rest) == lex(flat(pieces) + rest),
        pieces.len() > 0 ==> joined(pieces, gaps).len() > 0 && joined(pieces, gaps).last()
            == pieces.last().last(),
    decreases pieces.len(),
{
    if pieces.len() == 0 {
        assert(joined(pieces, gaps) =~= flat(pieces));
    } else {
        let n = pieces.len() as int;
        let front = pieces.drop_last();
        let last = pieces.last();
        assert(pieces[n - 1].len() > 0);
        let fewer = gaps.drop_last();
        assert(blank(gaps[n - 1]));
        assert(separable(front)) by {
            assert forall|i: int| 1 <= i < front.len() implies !(is_digit(front[i - 1].last())
                && is_digit(#[trigger] front[i][0])) by {
                assert(front[i] == pieces[i] && front[i - 1] == pieces[i - 1]);
            }
        }
        assert(joined(front, gaps) == joined(front, fewer)) by {
            lemma_joined_gaps(front, gaps, fewer);
        }
        assert(blank_gaps(front, fewer));
        lemma_gaps_removed(front, fewer, last + rest);
        let a = joined(front, gaps);
        if n > 1 {
            assert(pieces[n - 1][0] == (last + rest)[0]);
            assert(front.last() == pieces[n - 2]);
        }
        lemma_whitespace_run_keeps_tokens(a, gaps[n - 1], last + rest);
        assert(joined(pieces, gaps) + rest =~= a + gaps[n - 1] + (last + rest));
        assert(a + (last + rest) =~= joined(front, fewer) + (last + rest));
        assert(flat(front) + (last + rest) =~= flat(pieces) + rest);
        let j = joined(pieces, gaps);
        assert(j.last() == last.last());
    }
}

proof fn lemma_joined_gaps(pieces: Seq<Seq<char>>, g1: Seq<Seq<char>>, g2: Seq<Seq<char>>)
    requires
        g1.len() >= pieces.len(),
        g2.len() >= pieces.len(),
        forall|i: int| 0 <= i < pieces.len() ==> g1[i] == g2[i],
    ensures
        joined(pieces, g1) == joined(pieces, g2),
    decreases pieces.len(),
{
    if pieces.len() > 0 {
        lemma_joined_gaps(pieces.drop_last(), g1, g2);
    }
}

/// Putting whitespace in, or taking it out, anywhere but inside a number
/// changes no token, so no result: texts that differ only in the
/// whitespace gaps between the same pieces evaluate alike.
pub proof fn lemma_whitespace_gaps_keep_result(
    pieces: Seq<Seq<char>>,
    gaps1: Seq<Seq<char>>,
    gaps2: Seq<Seq<char>>,
)
    requires
        separable(pieces),
        blank_gaps(pieces, gaps1),
        blank_gaps(pieces, gaps2),
    ensures
        lex(spread(pieces, gaps1)) == lex(spread(pieces, gaps2)),
        value_of(spread(pieces, gaps1)) == value_of(spread(pieces, gaps2)),
        faults(spread(pieces, gaps1)) == faults(spread(pieces, gaps2)),
{
    let n = pieces.len() as int;
    let empty: Seq<char> = seq![];
    assert(blank(gaps1[n]) && blank(gaps2[n]));
    lemma_whitespace_run_keeps_tokens(joined(pieces, gaps1), gaps1[n], empty);
    lemma_whitespace_run_keeps_tokens(joined(pieces, gaps2), gaps2[n], empty);
    lemma_gaps_removed(pieces, gaps1, empty);
    lemma_gaps_removed(pieces, gaps2, empty);
    assert(joined(pieces, gaps1) + gaps1[n] + empty =~= spread(pieces, gaps1));
    assert(joined(pieces, gaps2) + gaps2[n] + empty =~= spread(pieces, gaps2));
}

} // verus!
