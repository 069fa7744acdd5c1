//! The result of a roll, and the way from an input text to it.

use crate::decimal::Dec;
use crate::dice::{DiceSource, Outcome};
use crate::error::RollError;
use crate::eval::{chain_outcome, evaluate_chain, info_result};
use crate::markers::{opens, paired};
use crate::parser::parse_full_expression;
use crate::syntax::{expression_of, is_legal};
use crate::text::{chars_of, push_char};
use vstd::prelude::*;

verus! {

/// The characters that may stand in an input.
pub const VALID_INPUT_CHARS: &'static str = "0123456789d.+-*/%() ";

/// What an expression came to: its value, its text with a marker `{}` in
/// place of each group of dice, and for each group of dice, in the order of
/// the markers, the text that asked for it and the faces it showed.
#[derive(Debug)]
pub struct RollInformation {
    pub value: Dec,
    pub processed_string: String,
    pub original_roll_texts: Vec<String>,
    pub rolls: Vec<Vec<Dec>>,
}

/// The mathematical form of a [`RollInformation`].
pub struct RollView {
    pub value: Dec,
    pub processed_string: Seq<char>,
    pub original_roll_texts: Seq<Seq<char>>,
    pub rolls: Seq<Seq<Dec>>,
}

/// The texts of a list of strings.
pub open spec fn texts_of(strings: Seq<String>) -> Seq<Seq<char>> {
    strings.map_values(|s: String| s@)
}

/// The faces of a list of groups.
pub open spec fn groups_of(groups: Seq<Vec<Dec>>) -> Seq<Seq<Dec>> {
    groups.map_values(|g: Vec<Dec>| g@)
}

impl RollView {
    /// Every number fits a decimal, each group of dice has its text, and
    /// the text with markers holds no brace but in a marker, and no more
    /// markers than there are groups of dice.
    pub open spec fn wf(self) -> bool {
        &&& self.value.wf()
        &&& self.original_roll_texts.len() == self.rolls.len()
        &&& paired(self.processed_string)
        &&& opens(self.processed_string) <= self.rolls.len()
        &&& forall|i: int, j: int|
            0 <= i < self.rolls.len() && 0 <= j < self.rolls[i].len() ==> (
            #[trigger] self.rolls[i][j]).wf()
    }
}

impl RollInformation {
    pub open spec fn view(&self) -> RollView {
        RollView {
            value: self.value,
            processed_string: self.processed_string@,
            original_roll_texts: texts_of(self.original_roll_texts@),
            rolls: groups_of(self.rolls@),
        }
    }

    /// Puts the four parts together.
    pub fn new(
        value: Dec,
        processed_string: String,
        original_roll_texts: Vec<String>,
        rolls: Vec<Vec<Dec>>,
    ) -> (r: RollInformation)
        ensures
            r.value == value,
            r.processed_string == processed_string,
            r.original_roll_texts == original_roll_texts,
            r.rolls == rolls,
    {
        RollInformation { value, processed_string, original_roll_texts, rolls }
    }
}

/// The test for a character that may stand in an input.
pub open spec fn legal() -> spec_fn(char) -> bool {
    |c: char| is_legal(c)
}

/// The test for a character other than a space.
pub open spec fn solid() -> spec_fn(char) -> bool {
    |c: char| c != ' '
}

/// The text without the characters that may not stand in an input.
pub open spec fn cleaned(text: Seq<char>) -> Seq<char> {
    text.filter(legal())
}

/// The text without its spaces.
pub open spec fn squeezed(text: Seq<char>) -> Seq<char> {
    text.filter(solid())
}

/// How an input ends on the faces of `tape`: it is cleaned, loses its
/// spaces, is read as an expression, and the expression is valued.
pub open spec fn input_outcome(text: Seq<char>, tape: Seq<int>) -> Outcome<RollView> {
    match expression_of(squeezed(cleaned(text))) {
        Ok(chain) => chain_outcome(chain, tape),
        Err(e) => Outcome::Failed(e),
    }
}

/// Whether `c` may stand in an input.
pub fn legal_char(c: char) -> (r: bool)
    ensures
        r == is_legal(c),
{
    ('0' <= c && c <= '9') || c == '.' || c == 'd' || c == '+' || c == '-' || c == '*' || c == '/'
        || c == '%' || c == '(' || c == ')' || c == ' '
}

/// Drops every character that may not stand in an input.
pub fn clean_input(input: &str) -> (r: String)
    ensures
        r@ == cleaned(input@),
{
    let chars = chars_of(input);
    let mut clean = String::new();
    let mut i: usize = 0;
    proof {
        reveal(Seq::filter);
        assert(chars@.take(0).filter(legal()) =~= Seq::<char>::empty());
    }
    while i < chars.len()
        invariant
            0 <= i <= chars.len(),
            clean@ == chars@.take(i as int).filter(legal()),
        decreases chars.len() - i,
    {
        proof {
            reveal(Seq::filter);
            assert(chars@.take(i + 1).drop_last() =~= chars@.take(i as int));
        }
        if legal_char(chars[i]) {
            push_char(&mut clean, chars[i]);
        }
        i = i + 1;
    }
    proof {
        assert(chars@.take(i as int) =~= chars@);
    }
    clean
}

/// Drops every space.
pub fn squeeze(chars: &Vec<char>) -> (r: Vec<char>)
    ensures
        r@ == squeezed(chars@),
{
    let mut kept: Vec<char> = Vec::new();
    let mut i: usize = 0;
    proof {
        reveal(Seq::filter);
        assert(chars@.take(0).filter(solid()) =~= Seq::<char>::empty());
    }
    while i < chars.len()
        invariant
            0 <= i <= chars.len(),
            kept@ == chars@.take(i as int).filter(solid()),
        decreases chars.len() - i,
    {
        proof {
            reveal(Seq::filter);
            assert(chars@.take(i + 1).drop_last() =~= chars@.take(i as int));
        }
        if chars[i] != ' ' {
            kept.push(chars[i]);
        }
        i = i + 1;
    }
    proof {
        assert(chars@.take(i as int) =~= chars@);
    }
    kept
}

/// Reads and values an input, with faces from `dice`. On whatever faces
/// might have followed the faces drawn, the input ends as it did here.
pub fn parse_input_with(input: &str, dice: &mut DiceSource) -> (r: Result<
    RollInformation,
    RollError,
>)
    requires
        old(dice).wf(),
    ensures
        final(dice).continues(old(dice)),
        forall|rest: Seq<int>| #[trigger]
            input_outcome(input@, final(dice).drawn_since(old(dice)) + rest) == info_result(
                r,
                rest,
            ),
        r matches Ok(info) ==> info@.wf(),
{
    let clean = clean_input(input);
    let chars = squeeze(&chars_of(clean.as_str()));
    match parse_full_expression(&chars) {
        Err(e) => Err(e),
        Ok(chain) => {
            let r = evaluate_chain(&chain, dice);
            proof {
                let made = dice.drawn_since(old(dice));
                assert forall|rest: Seq<int>| #[trigger]
                    input_outcome(input@, made + rest) == info_result(r, rest) by {
                    assert(chain_outcome(chain@, made + rest) == info_result(r, rest));
                }
            }
            r
        },
    }
}

/// Whether `r` tells how an input ended: the result, with no face left
/// over, or the message of the error.
pub open spec fn tells(r: Result<RollInformation, String>, outcome: Outcome<RollView>) -> bool {
    match (r, outcome) {
        (Ok(info), Outcome::Done(view, rest)) => info@ == view && rest.len() == 0,
        (Err(message), Outcome::Failed(e)) => message@ == e.text(),
        _ => false,
    }
}

/// Reads and values an input, with faces from the random generator of the
/// running thread. The input ends as it does on some run of faces: the
/// faces that were drawn.
pub fn parse_input(input: &str) -> (r: Result<RollInformation, String>)
    ensures
        exists|faces: Seq<int>| tells(r, #[trigger] input_outcome(input@, faces)),
        r matches Ok(info) ==> info@.wf(),
{
    let mut dice = DiceSource::random();
    let ghost first = dice;
    let found = parse_input_with(input, &mut dice);
    let r = match found {
        Ok(info) => Ok(info),
        Err(e) => Err(e.message()),
    };
    proof {
        let faces = dice.drawn_since(&first);
        assert(faces + Seq::<int>::empty() =~= faces);
        assert(input_outcome(input@, faces + Seq::<int>::empty()) == info_result(
            found,
            Seq::<int>::empty(),
        ));
        assert(tells(r, input_outcome(input@, faces)));
    }
    r
}

} // verus!
