use fluorite::dice::DiceSource;
use fluorite::error::RollError;
use fluorite::parse::{parse_input, parse_input_with};

fn fault(input: &str) -> RollError {
    let mut dice = DiceSource::scripted(vec![1, 1, 1, 1]);
    parse_input_with(input, &mut dice).unwrap_err()
}

#[test]
fn empty_input_is_refused() {
    assert_eq!(fault(""), RollError::EmptyExpression);
    assert_eq!(fault("   "), RollError::EmptyExpression);
    assert_eq!(fault("abc"), RollError::EmptyExpression);
}

#[test]
fn empty_group_is_refused() {
    assert_eq!(fault("()"), RollError::EmptyExpression);
    assert_eq!(fault("2+()"), RollError::EmptyExpression);
    assert_eq!(fault("(2+)"), RollError::OperatorAtEnd);
}

#[test]
fn unmatched_parentheses_are_refused() {
    assert_eq!(fault("(2+3"), RollError::UnmatchedParenthesis);
    assert_eq!(fault("2+3)"), RollError::UnmatchedParenthesis);
    assert_eq!(fault("("), RollError::UnmatchedParenthesis);
    assert_eq!(fault(")"), RollError::UnmatchedParenthesis);
    assert_eq!(fault("((2)"), RollError::UnmatchedParenthesis);
}

#[test]
fn operator_at_the_start_is_refused() {
    assert_eq!(fault("*5"), RollError::OperatorAtStart);
    assert_eq!(fault("d6"), RollError::OperatorAtStart);
    assert_eq!(fault("(/2)"), RollError::OperatorAtStart);
}

#[test]
fn operator_at_the_end_is_refused() {
    assert_eq!(fault("5+"), RollError::OperatorAtEnd);
    assert_eq!(fault("(5*)"), RollError::OperatorAtEnd);
    assert_eq!(fault("-"), RollError::OperatorAtEnd);
}

#[test]
fn doubled_operators_are_refused() {
    assert_eq!(fault("5**3"), RollError::ConsecutiveOperators);
    assert_eq!(fault("--5"), RollError::ConsecutiveOperators);
    assert_eq!(fault("5+-+3"), RollError::ConsecutiveOperators);
}

#[test]
fn a_sign_after_an_operator_is_accepted() {
    let mut dice = DiceSource::scripted(vec![]);
    let info = parse_input_with("5--3", &mut dice).unwrap();
    assert_eq!(info.value.mantissa, 8);
    assert_eq!(info.processed_string, "5--3");
}

#[test]
fn neighbouring_operands_are_refused() {
    assert_eq!(fault("2(3)"), RollError::ConsecutiveOperands);
    assert_eq!(fault("(2)3"), RollError::ConsecutiveOperands);
    assert_eq!(fault("(2)(3)"), RollError::ConsecutiveOperands);
}

#[test]
fn lone_decimal_point_is_refused() {
    assert_eq!(fault("."), RollError::BareDecimalPoint);
    assert_eq!(fault("2+."), RollError::BareDecimalPoint);
}

#[test]
fn second_decimal_point_is_refused() {
    assert_eq!(fault("1.2.3"), RollError::MultipleDecimalPoints);
    assert_eq!(fault(".."), RollError::MultipleDecimalPoints);
}

#[test]
fn huge_literal_is_refused() {
    assert_eq!(
        fault("99999999999999999999999999999999999999"),
        RollError::LiteralOutOfRange
    );
}

#[test]
fn dice_operands_are_checked_in_order() {
    assert_eq!(fault("2.5d6"), RollError::NonIntegerCount);
    assert_eq!(fault("2.5d6.5"), RollError::NonIntegerCount);
    assert_eq!(fault("2d6.5"), RollError::NonIntegerSides);
    assert_eq!(fault("-2d6.5"), RollError::NonIntegerSides);
    assert_eq!(fault("-2d6"), RollError::NegativeCount);
    assert_eq!(fault("-2d0"), RollError::NegativeCount);
    assert_eq!(fault("2d0"), RollError::NonPositiveSides);
    assert_eq!(fault("0d0"), RollError::NonPositiveSides);
    assert_eq!(fault("2d-6"), RollError::NonPositiveSides);
}

#[test]
fn division_by_zero_is_refused() {
    assert_eq!(fault("1/0"), RollError::DivisionByZero);
    assert_eq!(fault("1%0"), RollError::DivisionByZero);
    assert_eq!(fault("1/(2-2)"), RollError::DivisionByZero);
}

#[test]
fn overflow_is_refused() {
    assert_eq!(fault("79228162514264337593543950335+1"), RollError::Overflow);
    assert_eq!(
        fault("79228162514264337593543950335*79228162514264337593543950335"),
        RollError::Overflow
    );
}

#[test]
fn dice_fail_before_arithmetic() {
    assert_eq!(fault("1/0+2.5d6"), RollError::NonIntegerCount);
    assert_eq!(fault("(1/0)+2.5d6"), RollError::DivisionByZero);
}

#[test]
fn grammar_fails_before_dice() {
    assert_eq!(fault("2.5d6+("), RollError::UnmatchedParenthesis);
}

#[test]
fn every_error_has_its_own_message() {
    let all = [
        RollError::EmptyExpression,
        RollError::UnmatchedParenthesis,
        RollError::OperatorAtStart,
        RollError::OperatorAtEnd,
        RollError::ConsecutiveOperators,
        RollError::ConsecutiveOperands,
        RollError::BareDecimalPoint,
        RollError::MultipleDecimalPoints,
        RollError::LiteralOutOfRange,
        RollError::NonIntegerCount,
        RollError::NonIntegerSides,
        RollError::NegativeCount,
        RollError::NonPositiveSides,
        RollError::Overflow,
        RollError::DivisionByZero,
    ];
    for (i, a) in all.iter().enumerate() {
        assert!(!a.message().is_empty());
        for b in all.iter().skip(i + 1) {
            assert_ne!(a.message(), b.message());
        }
    }
}

#[test]
fn errors_reach_the_caller_as_text() {
    assert_eq!(parse_input("(2+3").unwrap_err(), RollError::UnmatchedParenthesis.message());
    assert_eq!(parse_input("1/0").unwrap_err(), "Attempted to divide by zero.");
    assert_eq!(
        parse_input("-1d6").unwrap_err(),
        "Attempted to roll negative number of dice."
    );
    assert_eq!(
        parse_input("1d1.5").unwrap_err(),
        "Attempted to roll dice with non-integer number of sides."
    );
}
