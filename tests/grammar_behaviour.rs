use calculator::ast::{BinaryOperator, Decimal, Expression, PrefixOperator, Root, SuffixOperator};
use calculator::grammar::parse;

fn num(n: u64) -> Expression {
    Expression::Number(Decimal::from_integer(n))
}

fn bin(left: Expression, op: BinaryOperator, right: Expression) -> Expression {
    Expression::BinaryOperation(Box::new(left), op, Box::new(right))
}

fn tree(input: &str) -> Expression {
    match parse(input).unwrap() {
        Root::Expression(e) => e,
    }
}

#[test]
fn sign_is_rejected_after_a_binary_operator() {
    let err = parse("1 * -3").unwrap_err();
    assert_eq!(err.offset, 4);
    assert_eq!(err.expected, vec!["\"(\"", "number"]);
}

#[test]
fn sign_is_accepted_at_the_start_of_a_group() {
    assert_eq!(
        tree("1 * (-3)"),
        bin(
            num(1),
            BinaryOperator::Multiplication,
            Expression::UnaryPrefixOperation(PrefixOperator::MinusSign, Box::new(num(3)))
        )
    );
}

#[test]
fn sign_binds_tighter_than_sum_and_power() {
    let minus_five = Expression::UnaryPrefixOperation(PrefixOperator::MinusSign, Box::new(num(5)));
    assert_eq!(
        tree("-5+5*5"),
        bin(
            minus_five,
            BinaryOperator::Plus,
            bin(num(5), BinaryOperator::Multiplication, num(5))
        )
    );
    let minus_two = Expression::UnaryPrefixOperation(PrefixOperator::MinusSign, Box::new(num(2)));
    assert_eq!(tree("-2 ^ 2"), bin(minus_two, BinaryOperator::Power, num(2)));
}

#[test]
fn factorial_binds_tighter_than_binary_operators() {
    let five_fact = Expression::UnarySuffixOperation(Box::new(num(5)), SuffixOperator::Factorial);
    assert_eq!(tree("5! * 3"), bin(five_fact, BinaryOperator::Multiplication, num(3)));
    let group_fact = Expression::UnarySuffixOperation(
        Box::new(bin(num(1), BinaryOperator::Plus, num(2))),
        SuffixOperator::Factorial,
    );
    assert_eq!(tree("(1 + 2)!"), group_fact);
}

#[test]
fn whitespace_does_not_change_the_tree() {
    assert_eq!(parse("5+10"), parse("5 + 10"));
    assert_eq!(parse("\t5\n+ 10 "), parse("5+10"));
}

#[test]
fn decimal_literals_are_exact_and_normalized() {
    let one_and_a_half = Expression::Number(Decimal { digits: vec![1, 5], scale: 1 });
    assert_eq!(tree("1.5"), one_and_a_half);
    assert_eq!(parse("1.50"), parse("1.5"));
    assert_eq!(parse("001.5"), parse("1.5"));
    assert_eq!(tree(".05"), Expression::Number(Decimal { digits: vec![5], scale: 2 }));
    assert_eq!(tree("5."), num(5));
    assert_eq!(tree("0.000"), num(0));
    assert_eq!(tree("120"), num(120));
}

#[test]
fn malformed_literal_is_an_error_at_the_literal() {
    let err = parse("2 + 1.2.3").unwrap_err();
    assert_eq!(err.offset, 4);
    assert_eq!(err.column, 5);
    assert_eq!(err.expected, vec!["number"]);
    assert!(parse(".").is_err());
}

#[test]
fn unclosed_group_expects_continuation_or_close() {
    let err = parse("(1 + 2").unwrap_err();
    assert_eq!(err.offset, 6);
    assert_eq!(
        err.expected,
        vec!["\"!\"", "\")\"", "\"*\"", "\"+\"", "\"-\"", "\"/\"", "\"^\""]
    );
}

#[test]
fn unknown_character_after_expression() {
    let err = parse("5 x").unwrap_err();
    assert_eq!(err.offset, 2);
    assert_eq!(
        err.expected,
        vec!["\"!\"", "\"*\"", "\"+\"", "\"-\"", "\"/\"", "\"^\"", "end of input"]
    );
}

#[test]
fn empty_input_is_an_error_at_zero() {
    let err = parse("").unwrap_err();
    assert_eq!(err.offset, 0);
    assert_eq!(err.column, 1);
    assert_eq!(err.expected, vec!["\"(\"", "\"+\"", "\"-\"", "number"]);
}

#[test]
fn empty_parentheses_fail_at_the_close() {
    let err = parse("()").unwrap_err();
    assert_eq!(err.offset, 1);
    assert_eq!(err.expected, vec!["\"(\"", "\"+\"", "\"-\"", "number"]);
}

#[test]
fn column_counts_from_the_line_start() {
    let err = parse("1 +\n  *").unwrap_err();
    assert_eq!(err.offset, 6);
    assert_eq!(err.column, 3);
}

#[test]
fn trailing_blanks_do_not_move_the_end_position() {
    let err = parse("5 * ").unwrap_err();
    assert_eq!(err.offset, 3);
    assert_eq!(err.column, 4);
}

#[test]
fn rendering_parses_back() {
    for input in [
        "1 + 2 / 3",
        "(1 + 2) * 3",
        "-+-42",
        "5!!",
        "(-5)! ^ 2 ^ 3",
        "0.05 - 12.5 * 3",
        "1 - (2 - 3)",
    ] {
        let e = tree(input);
        let text = e.to_text();
        assert_eq!(tree(&text), e, "{}", text);
    }
}

#[test]
fn rendering_parenthesizes_compound_operands() {
    assert_eq!(tree("(1 + 2) * 3").to_text(), "(1 + 2) * 3");
    assert_eq!(tree("1 + 2 * 3").to_text(), "1 + (2 * 3)");
    assert_eq!(tree("-+5!").to_text(), "-(+(5!))");
    assert_eq!(tree(".05").to_text(), "0.05");
    assert_eq!(tree("12.50").to_text(), "12.5");
    assert_eq!(tree("000").to_text(), "0");
}
