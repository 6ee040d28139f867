use exprcalc::{checked_evaluate, evaluate, Assoc, Expr, ExprError, Failure, Token, Tokenizer};

fn value(src: &str) -> i32 {
    match evaluate(src) {
        Ok(v) => v,
        Err(e) => panic!("{} failed: {}", src, e.message()),
    }
}

fn fails(src: &str) -> bool {
    matches!(evaluate(src), Err(ExprError::Parse(_)))
}

#[test]
fn precedence_of_multiplication() {
    assert_eq!(value("2 + 3 * 4"), 14);
    assert_eq!(value("(2 + 3) * 4"), 20);
}

#[test]
fn subtraction_groups_left() {
    assert_eq!(value("8 - 4 - 2"), 2);
}

#[test]
fn division_groups_left() {
    assert_eq!(value("100 / 10 / 5"), 2);
}

#[test]
fn power_groups_right() {
    assert_eq!(value("2 ^ 3 ^ 2"), 512);
}

#[test]
fn power_binds_tighter_than_product() {
    assert_eq!(value("3 * 2 ^ 3"), 24);
    assert_eq!(value("2 ^ 10"), 1024);
    assert_eq!(value("5 ^ 0"), 1);
}

#[test]
fn whitespace_does_not_matter() {
    assert_eq!(value("1+2"), 3);
    assert_eq!(value(" 1 + 2 "), 3);
    assert_eq!(value("\t1\n+\r2"), 3);
    assert_eq!(value("1\u{3000}+\u{a0}2"), 3);
}

#[test]
fn extra_parentheses_keep_value() {
    assert_eq!(value("2 + 3 * 4"), value("2 + (3 * 4)"));
    assert_eq!(value("2 + 3 * 4"), value("((2 + 3 * 4))"));
    assert_eq!(value("8 - 4 - 2"), value("(8 - 4) - 2"));
}

#[test]
fn fully_parenthesized_formula() {
    assert_eq!(value("((1 + 2) * (10 - (8 / 2)))"), 18);
    assert_eq!(value("((7 - 10) * 3)"), -9);
}

#[test]
fn malformed_inputs_fail() {
    assert!(fails("()"));
    assert!(fails("1 +"));
    assert!(fails("(1 + 2"));
    assert!(fails("1 2"));
}

#[test]
fn empty_input_fails() {
    assert!(fails(""));
    assert!(fails("   "));
}

#[test]
fn stray_closing_parenthesis_fails() {
    assert!(fails("1 + 2)"));
    assert!(fails(")"));
}

#[test]
fn unknown_character_ends_tokens() {
    assert!(fails("1 + $"));
    assert_eq!(value("1 $ 2"), 1);
    assert!(fails("-1"));
}

#[test]
fn illustrative_expression() {
    assert_eq!(value("83 - 5 + 3 * 10 + (83 - 73) / 5 + 35"), 145);
}

#[test]
fn division_truncates_toward_zero() {
    assert_eq!(value("7 / 2"), 3);
    assert_eq!(value("(0 - 7) / 2"), -3);
    assert_eq!(value("7 / (0 - 2)"), -3);
}

#[test]
fn repeated_evaluation_agrees() {
    let src = "83 - 5 + 3 * 10 + (83 - 73) / 5 + 35";
    assert_eq!(value(src), value(src));
    assert_eq!(fails("1 2"), fails("1 2"));
    let mut e = Expr::new(src);
    let first = e.evaluation().unwrap();
    e.reset();
    let second = e.evaluation().unwrap();
    assert_eq!(first, second);
}

#[test]
fn largest_number() {
    assert_eq!(value("2147483647"), 2147483647);
    assert!(fails("2147483648"));
}

#[test]
fn arithmetic_faults_are_reported() {
    assert!(matches!(checked_evaluate("1 / 0"), Err(Failure::Arithmetic)));
    assert!(matches!(checked_evaluate("2147483647 + 1"), Err(Failure::Arithmetic)));
    assert!(matches!(checked_evaluate("2 ^ 31"), Err(Failure::Arithmetic)));
    assert!(matches!(checked_evaluate("2 ^ (0 - 1)"), Err(Failure::Arithmetic)));
    assert!(matches!(checked_evaluate("(0 - 2147483647 - 1) / (0 - 1)"), Err(Failure::Arithmetic)));
    assert!(matches!(checked_evaluate("1 +"), Err(Failure::Syntax(_))));
    assert!(matches!(checked_evaluate("2 ^ 30"), Ok(1073741824)));
}

#[test]
fn fault_comes_before_later_syntax_error() {
    assert!(matches!(checked_evaluate("1 / 0 )"), Err(Failure::Arithmetic)));
}

#[test]
fn error_messages() {
    match evaluate("1 2") {
        Err(e) => assert_eq!(e.message(), "unexpected trailing input"),
        Ok(_) => panic!("expected an error"),
    }
    match evaluate("(1 + 2") {
        Err(e) => assert_eq!(e.message(), "missing closing parenthesis"),
        Ok(_) => panic!("expected an error"),
    }
    match evaluate("1 +") {
        Err(e) => assert_eq!(e.message(), "expected a number or left parenthesis"),
        Ok(_) => panic!("expected an error"),
    }
}

#[test]
fn parenthesis_as_operator_is_unknown() {
    let mut e = Expr::new("1 ) 2");
    match e.compute_expression(0) {
        Err(err) => assert_eq!(err.message(), "unknown operator"),
        Ok(_) => panic!("expected an error"),
    }
}

#[test]
fn compute_atom_reads_one_atom() {
    let mut e = Expr::new("(1 + 2) * 3");
    assert_eq!(e.compute_atom().unwrap(), 3);
    let mut e = Expr::new("* 3");
    assert!(e.compute_atom().is_err());
}

#[test]
fn compute_expression_stops_below_precedence() {
    let mut e = Expr::new("2 * 3 + 4");
    assert_eq!(e.compute_expression(2).unwrap(), 6);
}

#[test]
fn tokenizer_produces_tokens() {
    let mut t = Tokenizer::new(" 12+(3 ^4)- 5*6/7 ");
    let expected = vec![
        Token::Number(12),
        Token::Plus,
        Token::LeftParen,
        Token::Number(3),
        Token::Power,
        Token::Number(4),
        Token::RightParen,
        Token::Minus,
        Token::Number(5),
        Token::Multiply,
        Token::Number(6),
        Token::Divide,
        Token::Number(7),
    ];
    for tok in expected {
        assert_eq!(t.next(), Some(tok));
    }
    assert_eq!(t.next(), None);
    assert_eq!(t.next(), None);
}

#[test]
fn tokenizer_stops_at_unknown_character() {
    let mut t = Tokenizer::new("1 # 2");
    assert_eq!(t.next(), Some(Token::Number(1)));
    assert_eq!(t.next(), None);
    assert_eq!(t.next(), None);
    let mut t = Tokenizer::new("1 # 2");
    assert_eq!(t.collect_tokens(), vec![Token::Number(1)]);
}

#[test]
fn tokenizer_parts() {
    let mut t = Tokenizer::new("  42x");
    t.consume_whitespaces();
    assert_eq!(t.scan_numbers(), Some(Token::Number(42)));
    assert_eq!(t.scan_operator(), None);
    let mut t = Tokenizer::new("99999999999");
    assert_eq!(t.scan_numbers(), None);
    let mut t = Tokenizer::new("^");
    assert_eq!(t.scan_operator(), Some(Token::Power));
}

#[test]
fn token_table() {
    assert_eq!(Token::Plus.precedence(), 1);
    assert_eq!(Token::Minus.precedence(), 1);
    assert_eq!(Token::Multiply.precedence(), 2);
    assert_eq!(Token::Divide.precedence(), 2);
    assert_eq!(Token::Power.precedence(), 3);
    assert_eq!(Token::LeftParen.precedence(), 0);
    assert_eq!(Token::Power.assoc(), Assoc::Right);
    assert_eq!(Token::Minus.assoc(), Assoc::Left);
    assert!(Token::RightParen.is_operator());
    assert!(!Token::Number(1).is_operator());
}

#[test]
fn token_compute() {
    assert_eq!(Token::Plus.compute(2, 3), Some(5));
    assert_eq!(Token::Minus.compute(2, 3), Some(-1));
    assert_eq!(Token::Multiply.compute(4, 3), Some(12));
    assert_eq!(Token::Divide.compute(-7, 2), Some(-3));
    assert_eq!(Token::Power.compute(3, 4), Some(81));
    assert_eq!(Token::LeftParen.compute(3, 4), None);
    assert!(Token::Divide.is_defined(1, 1));
    assert!(!Token::Divide.is_defined(1, 0));
    assert!(!Token::Power.is_defined(2, -1));
    assert!(!Token::Multiply.is_defined(65536, 65536));
}

#[test]
fn token_symbols() {
    assert_eq!(Token::Plus.symbol(), Some('+'));
    assert_eq!(Token::RightParen.symbol(), Some(')'));
    assert_eq!(Token::Number(3).symbol(), None);
}

#[test]
fn parentheses_around_atoms_keep_value() {
    assert_eq!(value("2 + 3 * 4"), value("(2) + 3 * (4)"));
    assert_eq!(value("2 ^ 3 ^ 2"), value("2 ^ (3) ^ 2"));
    assert_eq!(value("(1 + 2) * 3"), value("((1 + 2)) * 3"));
    assert!(fails("1 2"));
    assert!(fails("1 (2)"));
}

#[test]
fn whitespace_inside_number_splits_it() {
    assert_eq!(value("12 + 1"), 13);
    assert!(fails("1 2 + 1"));
}

#[test]
fn atom_error_leaves_token_unread() {
    let mut e = Expr::new("-1");
    assert!(e.compute_atom().is_err());
    assert!(e.compute_atom().is_err());
    let mut e = Expr::new("1");
    assert_eq!(e.compute_atom().unwrap(), 1);
}

#[test]
fn same_level_chains_group_left() {
    assert_eq!(value("16 / 4 / 2"), 2);
    assert_eq!(value("2 * 6 / 4"), 3);
    assert_eq!(value("10 - 3 + 2"), 9);
}

#[test]
fn whitespace_runs_anywhere_outside_numbers() {
    assert_eq!(value("  12\t*\n\n( 3 -1 )  "), value("12*(3-1)"));
}
