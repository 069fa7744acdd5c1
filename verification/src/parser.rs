//! Reading the tree of an expression from its characters.

use crate::error::RollError;
use crate::syntax::{
    atom_at, binop_of, chain_at, expression_of, is_binop, is_numeric, is_sign, missing_operand,
    number_at, number_len, numeric_text, operand_at, points, unop_of, Atom, AtomView, Before, Binop, Chain,
    ChainView, Operand, OperandView, Unop,
};
use crate::text::string_of;
use vstd::prelude::*;

verus! {

/// Whether `c` can stand in a number.
pub fn numeric(c: char) -> (r: bool)
    ensures
        r == is_numeric(c),
{
    ('0' <= c && c <= '9') || c == '.'
}

/// Whether `c` writes a binary operator.
pub fn binary(c: char) -> (r: bool)
    ensures
        r == is_binop(c),
{
    c == 'd' || c == '+' || c == '-' || c == '*' || c == '/' || c == '%'
}

/// The binary operator that `c` writes.
pub fn parse_binop(c: char) -> (r: Binop)
    requires
        is_binop(c),
    ensures
        r == binop_of(c),
{
    if c == 'd' {
        Binop::Dice
    } else if c == '+' {
        Binop::Plus
    } else if c == '-' {
        Binop::Minus
    } else if c == '*' {
        Binop::Times
    } else if c == '/' {
        Binop::Divide
    } else {
        Binop::Mod
    }
}

/// The sign that `c` writes.
pub fn parse_unop(c: char) -> (r: Unop)
    requires
        is_sign(c),
    ensures
        r == unop_of(c),
{
    if c == '+' {
        Unop::Plus
    } else {
        Unop::Minus
    }
}

/// A run of numeric characters that ends at `to` has the length `to - from`.
pub proof fn lemma_number_len(s: Seq<char>, from: int, to: int)
    requires
        0 <= from <= to <= s.len(),
        forall|k: int| from <= k < to ==> is_numeric(#[trigger] s[k]),
        to == s.len() || !is_numeric(s[to]),
    ensures
        number_len(s, from) == to - from,
    decreases to - from,
{
    if from < to {
        lemma_number_len(s, from + 1, to);
    }
}

/// The number that starts at `at`: its text, and where it ends.
pub fn parse_number(chars: &Vec<char>, at: usize) -> (r: Result<(String, usize), RollError>)
    requires
        at < chars.len(),
        is_numeric(chars@[at as int]),
    ensures
        match r {
            Ok((text, end)) => at < end <= chars.len() && numeric_text(text@) && number_at(
                chars@,
                at as int,
            ) == Ok::<(Seq<char>, nat), RollError>((text@, (end - at) as nat)),
            Err(e) => number_at(chars@, at as int) == Err::<(Seq<char>, nat), RollError>(e),
        },
{
    let mut end: usize = at;
    let mut dots: usize = 0;
    proof {
        assert(chars@.subrange(at as int, end as int) =~= Seq::<char>::empty());
    }
    while end < chars.len() && numeric(chars[end])
        invariant
            at <= end <= chars.len(),
            forall|k: int| at <= k < end ==> is_numeric(#[trigger] chars@[k]),
            dots == points(chars@.subrange(at as int, end as int)),
            dots <= end - at,
        decreases chars.len() - end,
    {
        proof {
            let longer = chars@.subrange(at as int, end + 1);
            assert(longer.drop_last() =~= chars@.subrange(at as int, end as int));
        }
        if chars[end] == '.' {
            dots = dots + 1;
        }
        end = end + 1;
    }
    proof {
        lemma_number_len(chars@, at as int, end as int);
    }
    if dots > 1 {
        Err(RollError::MultipleDecimalPoints)
    } else if dots == end - at {
        Err(RollError::BareDecimalPoint)
    } else {
        let text = string_of(chars, at, end);
        proof {
            assert forall|i: int| 0 <= i < text@.len() implies is_numeric(#[trigger] text@[i]) by {
                assert(text@[i] == chars@[at + i]);
            }
        }
        Ok((text, end))
    }
}

/// The error for the place `at`, where an operand is due and none starts.
pub fn operand_missing(chars: &Vec<char>, at: usize, before: Before) -> (r: RollError)
    requires
        at <= chars.len(),
    ensures
        r == missing_operand(chars@, at as int, before),
{
    if at >= chars.len() {
        match before {
            Before::Start => if at == 0 {
                RollError::EmptyExpression
            } else {
                RollError::UnmatchedParenthesis
            },
            Before::Operator => RollError::OperatorAtEnd,
        }
    } else if chars[at] == ')' {
        match before {
            Before::Start => if at == 0 {
                RollError::UnmatchedParenthesis
            } else {
                RollError::EmptyExpression
            },
            Before::Operator => RollError::OperatorAtEnd,
        }
    } else {
        match before {
            Before::Start => RollError::OperatorAtStart,
            Before::Operator => RollError::ConsecutiveOperators,
        }
    }
}

/// The group whose opening parenthesis stands at `at`, and where it ends.
pub fn parse_paren_block(chars: &Vec<char>, at: usize) -> (r: Result<(Atom, usize), RollError>)
    requires
        at < chars.len(),
        chars@[at as int] == '(',
    ensures
        match r {
            Ok((atom, end)) => at < end <= chars.len() && atom@.wf() && atom_at(
                chars@,
                at as int,
                Before::Start,
            ) == Ok::<(AtomView, nat), RollError>((atom@, (end - at) as nat)),
            Err(e) => atom_at(chars@, at as int, Before::Start) == Err::<(AtomView, nat), RollError>(
                e,
            ),
        },
    decreases chars.len() - at, 0nat,
{
    match parse_legitimate_sequence(chars, at + 1, Before::Start) {
        Ok((chain, end)) => {
            if end < chars.len() && chars[end] == ')' {
                Ok((Atom::Group(Box::new(chain)), end + 1))
            } else {
                Err(RollError::UnmatchedParenthesis)
            }
        },
        Err(e) => Err(e),
    }
}

/// The atom that starts at `at`, and where it ends.
pub fn parse_non_operator(chars: &Vec<char>, at: usize, before: Before) -> (r: Result<
    (Atom, usize),
    RollError,
>)
    requires
        at <= chars.len(),
    ensures
        match r {
            Ok((atom, end)) => at < end <= chars.len() && atom@.wf() && atom_at(chars@, at as int, before)
                == Ok::<(AtomView, nat), RollError>((atom@, (end - at) as nat)),
            Err(e) => atom_at(chars@, at as int, before) == Err::<(AtomView, nat), RollError>(e),
        },
    decreases chars.len() - at, 1nat,
{
    if at < chars.len() && numeric(chars[at]) {
        match parse_number(chars, at) {
            Ok((text, end)) => Ok((Atom::Number(text), end)),
            Err(e) => Err(e),
        }
    } else if at < chars.len() && chars[at] == '(' {
        parse_paren_block(chars, at)
    } else {
        Err(operand_missing(chars, at, before))
    }
}

/// The signed operand whose sign stands at `at`, and where it ends.
pub fn parse_paired_unop(chars: &Vec<char>, at: usize) -> (r: Result<(Operand, usize), RollError>)
    requires
        at < chars.len(),
        is_sign(chars@[at as int]),
    ensures
        match r {
            Ok((operand, end)) => at < end <= chars.len() && operand@.wf() && forall|before: Before|
                operand_at(chars@, at as int, before) == Ok::<(OperandView, nat), RollError>(
                    (operand@, (end - at) as nat),
                ),
            Err(e) => forall|before: Before|
                operand_at(chars@, at as int, before) == Err::<(OperandView, nat), RollError>(e),
        },
    decreases chars.len() - at, 2nat,
{
    let sign = parse_unop(chars[at]);
    match parse_non_operator(chars, at + 1, Before::Operator) {
        Ok((atom, end)) => Ok((Operand::Signed(sign, atom), end)),
        Err(e) => Err(e),
    }
}

/// The operand that starts at `at`, and where it ends.
pub fn parse_non_binop(chars: &Vec<char>, at: usize, before: Before) -> (r: Result<
    (Operand, usize),
    RollError,
>)
    requires
        at <= chars.len(),
    ensures
        match r {
            Ok((operand, end)) => at < end <= chars.len() && operand@.wf() && operand_at(chars@, at as int, before)
                == Ok::<(OperandView, nat), RollError>((operand@, (end - at) as nat)),
            Err(e) => operand_at(chars@, at as int, before) == Err::<(OperandView, nat), RollError>(
                e,
            ),
        },
    decreases chars.len() - at, 3nat,
{
    if at < chars.len() && (chars[at] == '+' || chars[at] == '-') {
        parse_paired_unop(chars, at)
    } else {
        match parse_non_operator(chars, at, before) {
            Ok((atom, end)) => Ok((Operand::Plain(atom), end)),
            Err(e) => Err(e),
        }
    }
}

/// The sequence that starts at `at`, and where it ends.
pub fn parse_legitimate_sequence(chars: &Vec<char>, at: usize, before: Before) -> (r: Result<
    (Chain, usize),
    RollError,
>)
    requires
        at <= chars.len(),
    ensures
        match r {
            Ok((chain, end)) => at < end <= chars.len() && chain@.wf() && chain_at(chars@, at as int, before)
                == Ok::<(ChainView, nat), RollError>((chain@, (end - at) as nat)),
            Err(e) => chain_at(chars@, at as int, before) == Err::<(ChainView, nat), RollError>(e),
        },
    decreases chars.len() - at, 4nat,
{
    match parse_non_binop(chars, at, before) {
        Err(e) => Err(e),
        Ok((first, next)) => {
            if next >= chars.len() || chars[next] == ')' {
                Ok((Chain::Single(first), next))
            } else if binary(chars[next]) {
                let op = parse_binop(chars[next]);
                match parse_legitimate_sequence(chars, next + 1, Before::Operator) {
                    Ok((rest, end)) => Ok((Chain::Link(first, op, Box::new(rest)), end)),
                    Err(e) => Err(e),
                }
            } else {
                Err(RollError::ConsecutiveOperands)
            }
        },
    }
}

/// The expression that the characters write.
pub fn parse_full_expression(chars: &Vec<char>) -> (r: Result<Chain, RollError>)
    ensures
        match r {
            Ok(chain) => chain@.wf() && expression_of(chars@) == Ok::<ChainView, RollError>(chain@),
            Err(e) => expression_of(chars@) == Err::<ChainView, RollError>(e),
        },
{
    match parse_legitimate_sequence(chars, 0, Before::Start) {
        Ok((chain, end)) => {
            if end == chars.len() {
                Ok(chain)
            } else {
                Err(RollError::UnmatchedParenthesis)
            }
        },
        Err(e) => Err(e),
    }
}

} // verus!
