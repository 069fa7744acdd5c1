//! The ways in which a roll expression can fail.

use vstd::prelude::*;

verus! {

/// Why an expression has no result.
#[derive(Clone, Copy, Debug, PartialEq, Eq, Structural)]
pub enum RollError {
    /// The input, or a pair of parentheses, holds no expression.
    EmptyExpression,
    /// A parenthesis has no partner.
    UnmatchedParenthesis,
    /// A sequence starts with a binary operator.
    OperatorAtStart,
    /// A sequence ends with an operator.
    OperatorAtEnd,
    /// An operator follows an operator where an operand is due.
    ConsecutiveOperators,
    /// An operand follows an operand with no operator between them.
    ConsecutiveOperands,
    /// A decimal point stands with no digit on either side.
    BareDecimalPoint,
    /// A literal holds more than one decimal point.
    MultipleDecimalPoints,
    /// A literal is too large to be held as a decimal.
    LiteralOutOfRange,
    /// The number of dice is not a whole number.
    NonIntegerCount,
    /// The number of sides is not a whole number.
    NonIntegerSides,
    /// The number of dice is below zero.
    NegativeCount,
    /// The number of sides is not above zero.
    NonPositiveSides,
    /// A result does not fit in a decimal.
    Overflow,
    /// The right operand of `/` or `%` is zero.
    DivisionByZero,
}

impl RollError {
    /// The message shown for the error.
    pub open spec fn text(self) -> Seq<char> {
        match self {
            RollError::EmptyExpression => "Expected an expression, found nothing."@,
            RollError::UnmatchedParenthesis => "Found a parenthesis without a partner."@,
            RollError::OperatorAtStart => "Found a binary operator at the start of a sequence."@,
            RollError::OperatorAtEnd => "Found an operator at the end of a sequence."@,
            RollError::ConsecutiveOperators => "Found an operator where a number was expected."@,
            RollError::ConsecutiveOperands => "Found two values with no operator between them."@,
            RollError::BareDecimalPoint => "Found a decimal point with no digits around it."@,
            RollError::MultipleDecimalPoints => "Found more than one decimal point in one number."@,
            RollError::LiteralOutOfRange => "Found a number too large to compute with."@,
            RollError::NonIntegerCount => "Attempted to roll non-integer number of dice."@,
            RollError::NonIntegerSides => "Attempted to roll dice with non-integer number of sides."@,
            RollError::NegativeCount => "Attempted to roll negative number of dice."@,
            RollError::NonPositiveSides => "Attempted to roll dice with non-positive number of sides."@,
            RollError::Overflow => "Attempted a computation whose result is too large."@,
            RollError::DivisionByZero => "Attempted to divide by zero."@,
        }
    }

    /// The message shown for the error.
    pub fn message(self) -> (r: String)
        ensures
            r@ == self.text(),
    {
        let s: &str = match self {
            RollError::EmptyExpression => "Expected an expression, found nothing.",
            RollError::UnmatchedParenthesis => "Found a parenthesis without a partner.",
            RollError::OperatorAtStart => "Found a binary operator at the start of a sequence.",
            RollError::OperatorAtEnd => "Found an operator at the end of a sequence.",
            RollError::ConsecutiveOperators => "Found an operator where a number was expected.",
            RollError::ConsecutiveOperands => "Found two values with no operator between them.",
            RollError::BareDecimalPoint => "Found a decimal point with no digits around it.",
            RollError::MultipleDecimalPoints => "Found more than one decimal point in one number.",
            RollError::LiteralOutOfRange => "Found a number too large to compute with.",
            RollError::NonIntegerCount => "Attempted to roll non-integer number of dice.",
            RollError::NonIntegerSides => "Attempted to roll dice with non-integer number of sides.",
            RollError::NegativeCount => "Attempted to roll negative number of dice.",
            RollError::NonPositiveSides => "Attempted to roll dice with non-positive number of sides.",
            RollError::Overflow => "Attempted a computation whose result is too large.",
            RollError::DivisionByZero => "Attempted to divide by zero.",
        };
        String::from_str(s)
    }
}

} // verus!
