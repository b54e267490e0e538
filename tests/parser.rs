use calculator::ast::{BinaryOperator, Decimal, Expression, PrefixOperator, Root, SuffixOperator};
use calculator::grammar::parse;

fn num(n: u64) -> Expression {
    Expression::Number(Decimal::from_integer(n))
}

fn bin(left: Expression, op: BinaryOperator, right: Expression) -> Expression {
    Expression::BinaryOperation(Box::new(left), op, Box::new(right))
}

fn pre(op: PrefixOperator, operand: Expression) -> Expression {
    Expression::UnaryPrefixOperation(op, Box::new(operand))
}

fn fac(operand: Expression) -> Expression {
    Expression::UnarySuffixOperation(Box::new(operand), SuffixOperator::Factorial)
}

fn root(e: Expression) -> Root {
    Root::Expression(e)
}

#[test]
fn test_number_expressions() {
    assert_eq!(parse("0"), Ok(root(num(0))));
    assert_eq!(parse("9"), Ok(root(num(9))));
    assert_eq!(parse("15"), Ok(root(num(15))));
}

#[test]
fn test_prefixed_number_expressions() {
    assert_eq!(
        parse("-42"),
        Ok(root(pre(PrefixOperator::MinusSign, num(42))))
    );
    assert_eq!(
        parse("+42"),
        Ok(root(pre(PrefixOperator::PlusSign, num(42))))
    );
}

#[test]
fn test_prefixed_number_expressions_white_spaces() {
    assert!(parse("-42").is_ok());
    assert!(parse("+42").is_ok());
    assert!(parse("- 42").is_ok());
    assert!(parse("- 42").is_ok());
}

#[test]
fn test_nested_prefixed_expressions() {
    assert_eq!(
        parse("++42"),
        Ok(root(pre(
            PrefixOperator::PlusSign,
            pre(PrefixOperator::PlusSign, num(42))
        )))
    );
    assert_eq!(
        parse("+-42"),
        Ok(root(pre(
            PrefixOperator::PlusSign,
            pre(PrefixOperator::MinusSign, num(42))
        )))
    );
    assert_eq!(
        parse("-+-42"),
        Ok(root(pre(
            PrefixOperator::MinusSign,
            pre(
                PrefixOperator::PlusSign,
                pre(PrefixOperator::MinusSign, num(42))
            )
        )))
    );
}

#[test]
fn test_suffixed_number_expressions() {
    assert_eq!(parse("5!"), Ok(root(fac(num(5)))));
}

#[test]
fn test_suffixed_number_expressions_white_spaces() {
    assert!(parse("42!").is_ok());
    assert!(parse("42 !").is_ok());
}

#[test]
fn test_nested_suffixed_expressions() {
    assert_eq!(parse("5!!"), Ok(root(fac(fac(num(5))))));
}

#[test]
fn test_nested_unary_expressions() {
    assert_eq!(
        parse("-+5!"),
        Ok(root(pre(
            PrefixOperator::MinusSign,
            pre(PrefixOperator::PlusSign, fac(num(5)))
        )))
    );
}

#[test]
fn test_simple_binary_operation_plus() {
    assert_eq!(
        parse("5-10"),
        Ok(root(bin(num(5), BinaryOperator::Minus, num(10))))
    );
}

#[test]
fn test_simple_binary_operation_multiplication() {
    assert_eq!(
        parse("5*10"),
        Ok(root(bin(num(5), BinaryOperator::Multiplication, num(10))))
    );
}

#[test]
fn test_simple_binary_operation_devide() {
    assert_eq!(
        parse("5/10"),
        Ok(root(bin(num(5), BinaryOperator::Divide, num(10))))
    );
}

#[test]
fn test_simple_binary_operation_power() {
    assert_eq!(
        parse("5^10"),
        Ok(root(bin(num(5), BinaryOperator::Power, num(10))))
    );
}

#[test]
fn test_simple_binary_operation_white_spaces() {
    assert_eq!(
        parse("5 + 10"),
        Ok(root(bin(num(5), BinaryOperator::Plus, num(10))))
    );
    assert_eq!(
        parse("5+10"),
        Ok(root(bin(num(5), BinaryOperator::Plus, num(10))))
    );
}

#[test]
fn test_nested_binary_operations_plus() {
    assert_eq!(
        parse("5 + 10 + 8"),
        Ok(root(bin(
            bin(num(5), BinaryOperator::Plus, num(10)),
            BinaryOperator::Plus,
            num(8)
        )))
    );
}

#[test]
fn test_nested_binary_operations_plus_minus() {
    assert_eq!(
        parse("5 - 10 + 8"),
        Ok(root(bin(
            bin(num(5), BinaryOperator::Minus, num(10)),
            BinaryOperator::Plus,
            num(8)
        )))
    );
}

#[test]
fn test_nested_binary_operations_divide() {
    assert_eq!(
        parse("5 / 10 / 8"),
        Ok(root(bin(
            bin(num(5), BinaryOperator::Divide, num(10)),
            BinaryOperator::Divide,
            num(8)
        )))
    );
}

#[test]
fn test_nested_binary_operations_power() {
    assert_eq!(
        parse("1 ^ 2 ^ 3"),
        Ok(root(bin(
            num(1),
            BinaryOperator::Power,
            bin(num(2), BinaryOperator::Power, num(3))
        )))
    );
}

#[test]
fn test_nested_binary_operations_mixed_operator_priorities_plus_divide() {
    assert_eq!(
        parse("1 + 2 / 3"),
        Ok(root(bin(
            num(1),
            BinaryOperator::Plus,
            bin(num(2), BinaryOperator::Divide, num(3))
        )))
    );
}

#[test]
fn test_nested_binary_operations_mixed_operator_priorities_multiplication_minus() {
    assert_eq!(
        parse("1 * 2 - 3"),
        Ok(root(bin(
            bin(num(1), BinaryOperator::Multiplication, num(2)),
            BinaryOperator::Minus,
            num(3)
        )))
    );
}

#[test]
fn test_nested_binary_operations_mixed_operator_priorities_power_multiplication() {
    assert_eq!(
        parse("1 ^ 2 * 3"),
        Ok(root(bin(
            bin(num(1), BinaryOperator::Power, num(2)),
            BinaryOperator::Multiplication,
            num(3)
        )))
    );
}

#[test]
fn test_nested_binary_operations_mixed_operator_priorities_complex() {
    assert_eq!(
        parse("2 * 1 ^ 2 + 3 * 9"),
        Ok(root(bin(
            bin(
                num(2),
                BinaryOperator::Multiplication,
                bin(num(1), BinaryOperator::Power, num(2))
            ),
            BinaryOperator::Plus,
            bin(num(3), BinaryOperator::Multiplication, num(9))
        )))
    );
}

#[test]
fn test_nested_mixed_operations_white_spaces() {
    assert!(parse("5 + 5 + 5").is_ok());
    assert!(parse("5+5+5").is_ok());
    assert!(parse("5+5*5").is_ok());
    assert!(parse("-5+5*5").is_ok());
    assert!(parse("- 5 + 5 * 5").is_ok());
}

#[test]
fn test_parentheses_left_in_plus_expression() {
    assert_eq!(
        parse("(1 + 2) + 3"),
        Ok(root(bin(
            bin(num(1), BinaryOperator::Plus, num(2)),
            BinaryOperator::Plus,
            num(3)
        )))
    );
}

#[test]
fn test_parentheses_right_in_plus_expression() {
    assert_eq!(
        parse("1 + (2 + 3)"),
        Ok(root(bin(
            num(1),
            BinaryOperator::Plus,
            bin(num(2), BinaryOperator::Plus, num(3))
        )))
    );
}

#[test]
fn test_multipe_parentheses_in_plus_expression() {
    assert_eq!(
        parse("(2 + 3) + 1 + (2 + 3)"),
        Ok(root(bin(
            bin(
                bin(num(2), BinaryOperator::Plus, num(3)),
                BinaryOperator::Plus,
                num(1)
            ),
            BinaryOperator::Plus,
            bin(num(2), BinaryOperator::Plus, num(3))
        )))
    );
}

#[test]
fn test_empty_parentheses() {
    assert!(parse("()").is_err());
}

#[test]
fn test_parentheses_with_number() {
    assert_eq!(parse("(0)"), Ok(root(num(0))));
}

#[test]
fn test_nested_parentheses() {
    assert_eq!(parse("((0))"), Ok(root(num(0))));
    assert_eq!(parse("(((0)))"), Ok(root(num(0))));
}

#[test]
fn test_simple_invalid_expression() {
    assert!(parse("foo").is_err());
}

#[test]
fn test_invalidly_placed_operators() {
    assert!(parse("+").is_err());
    assert!(parse("-").is_err());
    assert!(parse("*").is_err());
    assert!(parse("+").is_err());
    assert!(parse("^").is_err());
}

#[test]
fn test_invalidly_placed_operators_in_expressions() {
    assert!(parse("1 / * 2").is_err());
    assert!(parse("1 * / 2").is_err());
    assert!(parse("1 ^ / 2").is_err());
    assert!(parse("/ 2").is_err());
    assert!(parse("2 *").is_err());
    assert!(parse("5 -").is_err());
    assert!(parse("5 +").is_err());
    assert!(parse("(5) +").is_err());
    assert!(parse("(5) *").is_err());
    assert!(parse("/ (5)").is_err());
}

#[test]
fn test_error_detection() {
    {
        let err = parse("*5").unwrap_err();
        assert_eq!(err.offset, 0);
        assert_eq!(err.column, 1);
    }
    {
        let err = parse(" *5").unwrap_err();
        assert_eq!(err.offset, 1);
        assert_eq!(err.column, 2);
    }
    {
        let err = parse("5*").unwrap_err();
        assert_eq!(err.offset, 2);
        assert_eq!(err.column, 3);
    }
    {
        let err = parse("5 * * 5").unwrap_err();
        assert_eq!(err.offset, 4);
        assert_eq!(err.column, 5);
    }
}
