//! The grammar of roll expressions: the tree of an expression, and the
//! language of texts that have one.
//!
//! A number is a run of digits with at most one decimal point and at least
//! one digit. An atom is a number or a sequence in parentheses. An operand is
//! an atom, or an atom behind one sign. A sequence is a run of operands with
//! one binary operator between each two. An expression is a sequence that
//! takes up the whole text. Spaces mean nothing and are taken out first.

use crate::decimal::is_digit;
use crate::error::RollError;
use vstd::prelude::*;

verus! {

/// A binary operator.
#[derive(Clone, Copy, Debug, PartialEq, Eq, Structural)]
pub enum Binop {
    Dice,
    Plus,
    Minus,
    Times,
    Divide,
    Mod,
}

/// A sign in front of an atom.
#[derive(Clone, Copy, Debug, PartialEq, Eq, Structural)]
pub enum Unop {
    Plus,
    Minus,
}

/// A number, by its text, or a sequence in parentheses.
#[derive(Debug)]
pub enum Atom {
    Number(String),
    Group(Box<Chain>),
}

/// An atom, bare or behind a sign.
#[derive(Debug)]
pub enum Operand {
    Plain(Atom),
    Signed(Unop, Atom),
}

/// A sequence of operands with a binary operator between each two.
#[derive(Debug)]
pub enum Chain {
    Single(Operand),
    Link(Operand, Binop, Box<Chain>),
}

/// The mathematical form of an [`Atom`].
pub enum AtomView {
    Number(Seq<char>),
    Group(Box<ChainView>),
}

/// The mathematical form of an [`Operand`].
pub enum OperandView {
    Plain(AtomView),
    Signed(Unop, AtomView),
}

/// The mathematical form of a [`Chain`].
pub enum ChainView {
    Single(OperandView),
    Link(OperandView, Binop, Box<ChainView>),
}

impl Atom {
    pub open spec fn view(&self) -> AtomView
        decreases self,
    {
        match self {
            Atom::Number(text) => AtomView::Number(text@),
            Atom::Group(chain) => AtomView::Group(Box::new(chain.view())),
        }
    }
}

impl Operand {
    pub open spec fn view(&self) -> OperandView
        decreases self,
    {
        match self {
            Operand::Plain(atom) => OperandView::Plain(atom.view()),
            Operand::Signed(sign, atom) => OperandView::Signed(*sign, atom.view()),
        }
    }
}

impl Chain {
    pub open spec fn view(&self) -> ChainView
        decreases self,
    {
        match self {
            Chain::Single(operand) => ChainView::Single(operand.view()),
            Chain::Link(operand, op, rest) => ChainView::Link(
                operand.view(),
                *op,
                Box::new(rest.view()),
            ),
        }
    }
}

/// The character that writes an operator.
pub open spec fn glyph(op: Binop) -> char {
    match op {
        Binop::Dice => 'd',
        Binop::Plus => '+',
        Binop::Minus => '-',
        Binop::Times => '*',
        Binop::Divide => '/',
        Binop::Mod => '%',
    }
}

/// The character that writes a sign.
pub open spec fn sign_glyph(sign: Unop) -> char {
    match sign {
        Unop::Plus => '+',
        Unop::Minus => '-',
    }
}

impl AtomView {
    /// The text that writes the tree.
    pub open spec fn written(self) -> Seq<char>
        decreases self,
    {
        match self {
            AtomView::Number(text) => text,
            AtomView::Group(chain) => seq!['('] + chain.written() + seq![')'],
        }
    }
}

impl OperandView {
    /// The text that writes the tree.
    pub open spec fn written(self) -> Seq<char>
        decreases self,
    {
        match self {
            OperandView::Plain(atom) => atom.written(),
            OperandView::Signed(sign, atom) => seq![sign_glyph(sign)] + atom.written(),
        }
    }
}

impl ChainView {
    /// The text that writes the tree.
    pub open spec fn written(self) -> Seq<char>
        decreases self,
    {
        match self {
            ChainView::Single(operand) => operand.written(),
            ChainView::Link(operand, op, rest) => operand.written() + seq![glyph(op)]
                + rest.written(),
        }
    }
}

/// Every character of `text` can stand in a number.
pub open spec fn numeric_text(text: Seq<char>) -> bool {
    forall|i: int| 0 <= i < text.len() ==> is_numeric(#[trigger] text[i])
}

impl AtomView {
    /// Every number in the tree is written with digits and points.
    pub open spec fn wf(self) -> bool
        decreases self,
    {
        match self {
            AtomView::Number(text) => numeric_text(text),
            AtomView::Group(chain) => chain.wf(),
        }
    }
}

impl OperandView {
    /// Every number in the tree is written with digits and points.
    pub open spec fn wf(self) -> bool
        decreases self,
    {
        match self {
            OperandView::Plain(atom) => atom.wf(),
            OperandView::Signed(_, atom) => atom.wf(),
        }
    }
}

impl ChainView {
    /// Every number in the tree is written with digits and points.
    pub open spec fn wf(self) -> bool
        decreases self,
    {
        match self {
            ChainView::Single(operand) => operand.wf(),
            ChainView::Link(operand, _, rest) => operand.wf() && rest.wf(),
        }
    }
}

impl AtomView {
    /// The tree rolls no dice.
    pub open spec fn dice_free(self) -> bool
        decreases self,
    {
        match self {
            AtomView::Number(_) => true,
            AtomView::Group(chain) => chain.dice_free(),
        }
    }
}

impl OperandView {
    /// The tree rolls no dice.
    pub open spec fn dice_free(self) -> bool
        decreases self,
    {
        match self {
            OperandView::Plain(atom) => atom.dice_free(),
            OperandView::Signed(_, atom) => atom.dice_free(),
        }
    }
}

impl ChainView {
    /// The tree rolls no dice.
    pub open spec fn dice_free(self) -> bool
        decreases self,
    {
        match self {
            ChainView::Single(operand) => operand.dice_free(),
            ChainView::Link(operand, op, rest) => operand.dice_free() && op != Binop::Dice
                && rest.dice_free(),
        }
    }
}

/// `c` may stand in an input: a digit, a point, an operator, a parenthesis
/// or a space.
pub open spec fn is_legal(c: char) -> bool {
    is_digit(c) || c == '.' || c == 'd' || c == '+' || c == '-' || c == '*' || c == '/' || c == '%'
        || c == '(' || c == ')' || c == ' '
}

/// `c` writes a binary operator.
pub open spec fn is_binop(c: char) -> bool {
    c == 'd' || c == '+' || c == '-' || c == '*' || c == '/' || c == '%'
}

/// `c` writes a sign.
pub open spec fn is_sign(c: char) -> bool {
    c == '+' || c == '-'
}

/// `c` can stand in a number.
pub open spec fn is_numeric(c: char) -> bool {
    is_digit(c) || c == '.'
}

/// The binary operator that `c` writes.
pub open spec fn binop_of(c: char) -> Binop {
    if c == 'd' {
        Binop::Dice
    } else if c == '+' {
        Binop::Plus
    } else if c == '-' {
        Binop::Minus
    } else if c == '*' {
        Binop::Times
    } else if c == '/' {
        Binop::Divide
    } else {
        Binop::Mod
    }
}

/// The sign that `c` writes.
pub open spec fn unop_of(c: char) -> Unop {
    if c == '+' {
        Unop::Plus
    } else {
        Unop::Minus
    }
}

/// What stands before the place where an operand is due: the start of a
/// sequence, or an operator.
#[derive(Clone, Copy, Debug, PartialEq, Eq, Structural)]
pub enum Before {
    Start,
    Operator,
}

/// The length of the run of digits and points that starts at `at`.
pub open spec fn number_len(s: Seq<char>, at: int) -> nat
    decreases s.len() - at,
{
    if 0 <= at < s.len() && is_numeric(s[at]) {
        1 + number_len(s, at + 1)
    } else {
        0
    }
}

/// How many decimal points `text` holds.
pub open spec fn points(text: Seq<char>) -> nat
    decreases text.len(),
{
    if text.len() == 0 {
        0
    } else {
        points(text.drop_last()) + if text.last() == '.' {
            1nat
        } else {
            0nat
        }
    }
}

/// The number that starts at `at`: its text and length.
pub open spec fn number_at(s: Seq<char>, at: int) -> Result<(Seq<char>, nat), RollError> {
    let len = number_len(s, at);
    let text = s.subrange(at, at + len);
    if points(text) > 1 {
        Err(RollError::MultipleDecimalPoints)
    } else if points(text) == len {
        Err(RollError::BareDecimalPoint)
    } else {
        Ok((text, len))
    }
}

/// The error for a place where an operand is due and none starts.
pub open spec fn missing_operand(s: Seq<char>, at: int, before: Before) -> RollError {
    if at >= s.len() {
        match before {
            Before::Start => if at == 0 {
                RollError::EmptyExpression
            } else {
                RollError::UnmatchedParenthesis
            },
            Before::Operator => RollError::OperatorAtEnd,
        }
    } else if s[at] == ')' {
        match before {
            Before::Start => if at == 0 {
                RollError::UnmatchedParenthesis
            } else {
                RollError::EmptyExpression
            },
            Before::Operator => RollError::OperatorAtEnd,
        }
    } else {
        match before {
            Before::Start => RollError::OperatorAtStart,
            Before::Operator => RollError::ConsecutiveOperators,
        }
    }
}

/// The atom that starts at `at`, and its length.
pub open spec fn atom_at(s: Seq<char>, at: int, before: Before) -> Result<(AtomView, nat), RollError>
    decreases s.len() - at, 0nat,
{
    if 0 <= at < s.len() && is_numeric(s[at]) {
        match number_at(s, at) {
            Ok((text, len)) => Ok((AtomView::Number(text), len)),
            Err(e) => Err(e),
        }
    } else if 0 <= at < s.len() && s[at] == '(' {
        match chain_at(s, at + 1, Before::Start) {
            Ok((chain, len)) => if at + 1 + len < s.len() && s[at + 1 + len] == ')' {
                Ok((AtomView::Group(Box::new(chain)), len + 2))
            } else {
                Err(RollError::UnmatchedParenthesis)
            },
            Err(e) => Err(e),
        }
    } else {
        Err(missing_operand(s, at, before))
    }
}

/// The operand that starts at `at`, and its length.
pub open spec fn operand_at(s: Seq<char>, at: int, before: Before) -> Result<
    (OperandView, nat),
    RollError,
>
    decreases s.len() - at, 1nat,
{
    if 0 <= at < s.len() && is_sign(s[at]) {
        match atom_at(s, at + 1, Before::Operator) {
            Ok((atom, len)) => Ok((OperandView::Signed(unop_of(s[at]), atom), len + 1)),
            Err(e) => Err(e),
        }
    } else {
        match atom_at(s, at, before) {
            Ok((atom, len)) => Ok((OperandView::Plain(atom), len)),
            Err(e) => Err(e),
        }
    }
}

/// The sequence that starts at `at`, and its length. It ends where the text
/// ends or a closing parenthesis stands.
pub open spec fn chain_at(s: Seq<char>, at: int, before: Before) -> Result<
    (ChainView, nat),
    RollError,
>
    decreases s.len() - at, 2nat,
{
    match operand_at(s, at, before) {
        Err(e) => Err(e),
        Ok((first, len)) => {
            let next = at + len;
            if next >= s.len() || s[next] == ')' {
                Ok((ChainView::Single(first), len))
            } else if is_binop(s[next]) {
                match chain_at(s, next + 1, Before::Operator) {
                    Ok((rest, more)) => Ok(
                        (ChainView::Link(first, binop_of(s[next]), Box::new(rest)), len + 1 + more),
                    ),
                    Err(e) => Err(e),
                }
            } else {
                Err(RollError::ConsecutiveOperands)
            }
        },
    }
}

/// The expression that a text without spaces writes.
pub open spec fn expression_of(s: Seq<char>) -> Result<ChainView, RollError> {
    match chain_at(s, 0, Before::Start) {
        Ok((chain, len)) => if len == s.len() {
            Ok(chain)
        } else {
            Err(RollError::UnmatchedParenthesis)
        },
        Err(e) => Err(e),
    }
}

} // verus!
