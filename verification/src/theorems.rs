//! What holds of every roll.

use crate::decimal::{
    all_digits, digits_value, fraction_part, is_digit, literal_value, point_at, pow10, whole_part,
    Dec, MAX_MANTISSA,
};
use crate::dice::{dice_fault, draws_outcome, roll_outcome, Outcome};
use crate::error::RollError;
use crate::eval::{
    arithmetic_info, arithmetic_value, atom_outcome, chain_outcome, dice_info, dice_reduced,
    free_of, is_of_tier, members_outcome, next_of_tier, number_info, operand, operand_outcome,
    operator, sequence_outcome, spliced, tier_of, tier_reduced, MemberView, Tier,
};
use crate::markers::{brace_free, filled, lemma_filled, lemma_no_opens};
use crate::parse::{cleaned, input_outcome, legal, solid, squeezed, RollView};
use crate::parser::lemma_number_len;
use crate::syntax::{
    atom_at, chain_at, expression_of, is_binop, is_numeric, is_sign, number_at, number_len,
    operand_at, points, AtomView, Before, Binop, ChainView, OperandView,
};
use vstd::prelude::*;

verus! {

/// The sum of the faces from place `from` on.
pub open spec fn faces_sum(faces: Seq<Dec>, from: int) -> int
    decreases faces.len() - from,
{
    if from < 0 || from >= faces.len() {
        0
    } else {
        faces[from].mantissa + faces_sum(faces, from + 1)
    }
}

/// Each face from place `from` on is a whole number from 1 to `sides`.
pub open spec fn faces_on_die(faces: Seq<Dec>, from: int, sides: int) -> bool {
    forall|i: int|
        from <= i < faces.len() ==> (#[trigger] faces[i]).scale == 0 && 1 <= faces[i].mantissa
            <= sides
}

/// Dice that are still to be rolled add one face each, on the die, behind
/// the faces already shown, and add their faces to the sum.
pub proof fn lemma_draws(left: int, sides: int, sum: int, rolls: Seq<Dec>, tape: Seq<int>)
    requires
        0 <= left,
        1 <= sides <= MAX_MANTISSA,
        0 <= sum <= MAX_MANTISSA,
    ensures
        match draws_outcome(left, sides, sum, rolls, tape) {
            Outcome::Done((total, faces), rest) => {
                &&& faces.len() == rolls.len() + left
                &&& faces.subrange(0, rolls.len() as int) == rolls
                &&& faces_on_die(faces, rolls.len() as int, sides)
                &&& total == Dec::whole(sum + faces_sum(faces, rolls.len() as int))
                &&& 0 <= sum + faces_sum(faces, rolls.len() as int) <= MAX_MANTISSA
                &&& rest.len() + left == tape.len()
            },
            Outcome::Failed(e) => e == RollError::Overflow,
            Outcome::Stuck => true,
        },
    decreases left,
{
    if left <= 0 {
        assert(rolls.subrange(0, rolls.len() as int) =~= rolls);
    } else if tape.len() == 0 || !(1 <= tape[0] <= sides) {
    } else if sum + tape[0] > MAX_MANTISSA {
    } else {
        let more = rolls.push(Dec::whole(tape[0]));
        lemma_draws(left - 1, sides, sum + tape[0], more, tape.skip(1));
        match draws_outcome(left - 1, sides, sum + tape[0], more, tape.skip(1)) {
            Outcome::Done((total, faces), rest) => {
                assert(faces.subrange(0, rolls.len() as int) =~= more.subrange(
                    0,
                    rolls.len() as int,
                ));
                assert(more.subrange(0, rolls.len() as int) =~= rolls);
                assert(faces[rolls.len() as int] == more[rolls.len() as int]);
                assert(faces[rolls.len() as int] == Dec::whole(tape[0]));
            },
            _ => {},
        }
    }
}

/// A whole number at scale 0 is its own mantissa.
pub proof fn lemma_whole(n: int)
    requires
        -MAX_MANTISSA <= n <= MAX_MANTISSA,
    ensures
        Dec::whole(n).is_integral(),
        Dec::whole(n).whole_value() == n,
        Dec::whole(n).wf(),
{
    assert(pow10(0) == 1);
}

/// A group of dice that can be rolled shows as many faces as it has dice,
/// each from 1 to the number of sides, and is worth their sum; it fails
/// only where that sum no longer fits in a decimal.
pub proof fn theorem_roll(count: Dec, sides: Dec, tape: Seq<int>)
    requires
        count.wf(),
        sides.wf(),
        dice_fault(count, sides).is_none(),
    ensures
        match roll_outcome(count, sides, tape) {
            Outcome::Done((total, faces), rest) => {
                &&& faces.len() == count.whole_value()
                &&& faces_on_die(faces, 0, sides.whole_value())
                &&& total == Dec::whole(faces_sum(faces, 0))
                &&& rest.len() + faces.len() == tape.len()
            },
            Outcome::Failed(e) => e == RollError::Overflow,
            Outcome::Stuck => true,
        },
{
    let p = pow10(sides.scale as nat);
    crate::decimal::lemma_pow10_positive(sides.scale as nat);
    let m = sides.mantissa as int;
    vstd::arithmetic::div_mod::lemma_fundamental_div_mod(m, p);
    assert(m / p <= MAX_MANTISSA) by (nonlinear_arith)
        requires
            0 <= m <= MAX_MANTISSA,
            p >= 1,
            m == p * (m / p) + (m % p),
            0 <= m % p,
            m / p >= 1,
    ;
    lemma_draws(count.whole_value(), sides.whole_value(), 0, Seq::<Dec>::empty(), tape);
}

/// A text whose characters all pass a test is left whole by the test.
pub proof fn lemma_filter_keeps_all(text: Seq<char>, test: spec_fn(char) -> bool)
    requires
        forall|i: int| 0 <= i < text.len() ==> test(#[trigger] text[i]),
    ensures
        text.filter(test) == text,
    decreases text.len(),
{
    reveal(Seq::filter);
    if text.len() > 0 {
        lemma_filter_keeps_all(text.drop_last(), test);
        assert(text.drop_last().push(text.last()) =~= text);
    }
}

/// A run of digits holds no decimal point.
pub proof fn lemma_digits_have_no_point(text: Seq<char>)
    requires
        all_digits(text),
    ensures
        points(text) == 0,
    decreases text.len(),
{
    if text.len() > 0 {
        lemma_digits_have_no_point(text.drop_last());
    }
}

/// A run of digits that ends where the text ends, or before a character
/// that cannot stand in a number, is read as a number.
pub proof fn lemma_digits_are_a_number(s: Seq<char>, from: int, to: int)
    requires
        0 <= from < to <= s.len(),
        all_digits(s.subrange(from, to)),
        to == s.len() || !is_numeric(s[to]),
    ensures
        number_at(s, from) == Ok::<(Seq<char>, nat), RollError>(
            (s.subrange(from, to), (to - from) as nat),
        ),
{
    let text = s.subrange(from, to);
    assert forall|k: int| from <= k < to implies is_numeric(#[trigger] s[k]) by {
        assert(s[k] == text[k - from]);
    }
    lemma_number_len(s, from, to);
    lemma_digits_have_no_point(text);
}

/// A run of digits holds no decimal point before its end.
pub proof fn lemma_digits_point_at(text: Seq<char>)
    requires
        all_digits(text),
    ensures
        point_at(text) == text.len(),
    decreases text.len(),
{
    if text.len() > 0 {
        assert(is_digit(text[0]));
        assert forall|i: int| 0 <= i < text.drop_first().len() implies is_digit(
            #[trigger] text.drop_first()[i],
        ) by {
            assert(text.drop_first()[i] == text[i + 1]);
        }
        lemma_digits_point_at(text.drop_first());
    }
}

/// A run of digits that writes a number below 2^96 denotes that number.
pub proof fn lemma_digits_literal(text: Seq<char>)
    requires
        text.len() > 0,
        all_digits(text),
        digits_value(text) <= MAX_MANTISSA,
    ensures
        literal_value(text) == Some(Dec::whole(digits_value(text))),
{
    lemma_digits_point_at(text);
    assert(whole_part(text) =~= text);
    assert(fraction_part(text) =~= Seq::<char>::empty());
    assert(whole_part(text) + fraction_part(text) =~= text);
}

/// A sequence of one operand comes out of the three passes as that operand.
pub proof fn lemma_single_operand(info: RollView, tape: Seq<int>)
    ensures
        sequence_outcome(seq![MemberView::NonBinop(info)], tape) == Outcome::Done(info, tape),
{
    let members = seq![MemberView::NonBinop(info)];
    reveal_with_fuel(next_of_tier, 2);
    assert(next_of_tier(members, Tier::Dice, 0) == 1);
    assert(next_of_tier(members, Tier::Multiplicative, 0) == 1);
    assert(next_of_tier(members, Tier::Additive, 0) == 1);
    assert(dice_reduced(members, tape) == Outcome::Done(members, tape));
    assert(tier_reduced(members, Tier::Multiplicative) == Ok::<Seq<MemberView>, RollError>(
        members,
    ));
    assert(tier_reduced(members, Tier::Additive) == Ok::<Seq<MemberView>, RollError>(members));
}

/// An input that is a run of digits, and writes a number below 2^96, comes
/// to that number on any faces: its text is the input, and it has no dice.
pub proof fn theorem_integer_literal(text: Seq<char>, tape: Seq<int>)
    requires
        text.len() > 0,
        all_digits(text),
        digits_value(text) <= MAX_MANTISSA,
    ensures
        input_outcome(text, tape) == Outcome::Done(
            number_info(Dec::whole(digits_value(text)), text),
            tape,
        ),
{
    assert forall|i: int| 0 <= i < text.len() implies legal()(#[trigger] text[i]) by {
        assert(is_digit(text[i]));
    }
    lemma_filter_keeps_all(text, legal());
    assert forall|i: int| 0 <= i < text.len() implies solid()(#[trigger] text[i]) by {
        assert(is_digit(text[i]));
    }
    lemma_filter_keeps_all(text, solid());
    assert(squeezed(cleaned(text)) == text);
    assert(text.subrange(0, text.len() as int) =~= text);
    lemma_digits_are_a_number(text, 0, text.len() as int);
    assert(is_digit(text[0]));
    let atom = AtomView::Number(text);
    assert(atom_at(text, 0, Before::Start) == Ok::<(AtomView, nat), RollError>((atom, text.len())));
    assert(operand_at(text, 0, Before::Start) == Ok::<(OperandView, nat), RollError>(
        (OperandView::Plain(atom), text.len()),
    ));
    let chain = ChainView::Single(OperandView::Plain(atom));
    assert(chain_at(text, 0, Before::Start) == Ok::<(ChainView, nat), RollError>(
        (chain, text.len()),
    ));
    assert(expression_of(text) == Ok::<ChainView, RollError>(chain));
    let info = number_info(Dec::whole(digits_value(text)), text);
    lemma_digits_literal(text);
    assert(atom_outcome(atom, tape) == Outcome::Done(info, tape));
    assert(operand_outcome(OperandView::Plain(atom), tape) == Outcome::Done(info, tape));
    assert(members_outcome(chain, tape) == Outcome::Done(seq![MemberView::NonBinop(info)], tape));
    lemma_single_operand(info, tape);
}

/// A run of digits writes a number that is not negative.
pub proof fn lemma_digits_value_is_natural(text: Seq<char>)
    requires
        all_digits(text),
    ensures
        digits_value(text) >= 0,
    decreases text.len(),
{
    if text.len() > 0 {
        lemma_digits_value_is_natural(text.drop_last());
        assert(is_digit(text.last()));
    }
}

/// The tree of `count d sides`.
pub open spec fn plain_dice(count: Seq<char>, sides: Seq<char>) -> ChainView {
    ChainView::Link(
        OperandView::Plain(AtomView::Number(count)),
        Binop::Dice,
        Box::new(ChainView::Single(OperandView::Plain(AtomView::Number(sides)))),
    )
}

/// A run of digits that ends where the text ends, or before a character
/// that cannot stand in a number, is read as an operand.
pub proof fn lemma_digits_are_an_operand(s: Seq<char>, from: int, to: int, before: Before)
    requires
        0 <= from < to <= s.len(),
        all_digits(s.subrange(from, to)),
        to == s.len() || !is_numeric(s[to]),
    ensures
        operand_at(s, from, before) == Ok::<(OperandView, nat), RollError>(
            (OperandView::Plain(AtomView::Number(s.subrange(from, to))), (to - from) as nat),
        ),
{
    lemma_digits_are_a_number(s, from, to);
    assert(is_digit(s[from])) by {
        assert(s[from] == s.subrange(from, to)[0]);
    }
    let atom = AtomView::Number(s.subrange(from, to));
    assert(atom_at(s, from, before) == Ok::<(AtomView, nat), RollError>(
        (atom, (to - from) as nat),
    ));
}

/// Two runs of digits with a `d` between them are read as a sequence of two
/// numbers and the operator.
pub proof fn lemma_dice_are_a_chain(s: Seq<char>, split: int)
    requires
        0 < split,
        split + 1 < s.len(),
        all_digits(s.subrange(0, split)),
        s[split] == 'd',
        all_digits(s.subrange(split + 1, s.len() as int)),
    ensures
        chain_at(s, 0, Before::Start) == Ok::<(ChainView, nat), RollError>(
            (plain_dice(s.subrange(0, split), s.subrange(split + 1, s.len() as int)), s.len()),
        ),
{
    lemma_digits_are_an_operand(s, 0, split, Before::Start);
    lemma_digits_are_an_operand(s, split + 1, s.len() as int, Before::Operator);
    let right = OperandView::Plain(AtomView::Number(s.subrange(split + 1, s.len() as int)));
    assert(chain_at(s, split + 1, Before::Operator) == Ok::<(ChainView, nat), RollError>(
        (ChainView::Single(right), (s.len() - split - 1) as nat),
    ));
}

/// Two runs of digits with a `d` between them are left whole by cleaning
/// and squeezing.
pub proof fn lemma_plain_text_is_kept(text: Seq<char>, split: int)
    requires
        0 <= split < text.len(),
        all_digits(text.subrange(0, split)),
        text[split] == 'd',
        all_digits(text.subrange(split + 1, text.len() as int)),
    ensures
        squeezed(cleaned(text)) == text,
{
    let count = text.subrange(0, split);
    let sides = text.subrange(split + 1, text.len() as int);
    assert forall|i: int| 0 <= i < text.len() implies legal()(#[trigger] text[i]) && solid()(
        text[i],
    ) by {
        if i < split {
            assert(is_digit(count[i]));
        } else if i > split {
            assert(is_digit(sides[i - split - 1]));
        }
    }
    lemma_filter_keeps_all(text, legal());
    lemma_filter_keeps_all(text, solid());
}

/// Two runs of digits with a `d` between them are read as dice.
pub proof fn lemma_plain_dice_is_read(count: Seq<char>, sides: Seq<char>)
    requires
        count.len() > 0,
        all_digits(count),
        sides.len() > 0,
        all_digits(sides),
    ensures
        expression_of(squeezed(cleaned(count + seq!['d'] + sides))) == Ok::<ChainView, RollError>(
            plain_dice(count, sides),
        ),
{
    let text = count + seq!['d'] + sides;
    let split = count.len() as int;
    assert(text.len() == count.len() + 1 + sides.len());
    assert(text.subrange(0, split) =~= count);
    assert(text.subrange(split + 1, text.len() as int) =~= sides);
    assert(text[split] == 'd');
    lemma_plain_text_is_kept(text, split);
    lemma_dice_are_a_chain(text, split);
}

/// The members of `left d right`.
pub open spec fn dice_members(left: RollView, right: RollView) -> Seq<MemberView> {
    seq![MemberView::NonBinop(left), MemberView::Binop(Binop::Dice), MemberView::NonBinop(right)]
}

/// The operands of dice between two numbers are the two numbers, and no
/// face is drawn for them.
pub proof fn lemma_plain_dice_members(count: Seq<char>, sides: Seq<char>, tape: Seq<int>)
    requires
        count.len() > 0,
        all_digits(count),
        digits_value(count) <= MAX_MANTISSA,
        sides.len() > 0,
        all_digits(sides),
        digits_value(sides) <= MAX_MANTISSA,
    ensures
        members_outcome(plain_dice(count, sides), tape) == Outcome::Done(
            dice_members(
                number_info(Dec::whole(digits_value(count)), count),
                number_info(Dec::whole(digits_value(sides)), sides),
            ),
            tape,
        ),
{
    let left_atom = AtomView::Number(count);
    let right_atom = AtomView::Number(sides);
    let left = number_info(Dec::whole(digits_value(count)), count);
    let right = number_info(Dec::whole(digits_value(sides)), sides);
    let tail = ChainView::Single(OperandView::Plain(right_atom));
    lemma_digits_literal(count);
    lemma_digits_literal(sides);
    assert(atom_outcome(left_atom, tape) == Outcome::Done(left, tape));
    assert(atom_outcome(right_atom, tape) == Outcome::Done(right, tape));
    assert(operand_outcome(OperandView::Plain(left_atom), tape) == Outcome::Done(left, tape));
    assert(operand_outcome(OperandView::Plain(right_atom), tape) == Outcome::Done(right, tape));
    assert(members_outcome(tail, tape) == Outcome::Done(seq![MemberView::NonBinop(right)], tape));
    assert(seq![MemberView::NonBinop(left), MemberView::Binop(Binop::Dice)] + seq![
        MemberView::NonBinop(right),
    ] =~= dice_members(left, right));
}

/// A sequence `left d right` comes to the dice that it rolls.
pub proof fn lemma_dice_sequence(left: RollView, right: RollView, tape: Seq<int>)
    ensures
        sequence_outcome(dice_members(left, right), tape) == match roll_outcome(
            left.value,
            right.value,
            tape,
        ) {
            Outcome::Done((total, faces), rest) => Outcome::Done(
                dice_info(left, right, total, faces),
                rest,
            ),
            Outcome::Failed(e) => Outcome::Failed(e),
            Outcome::Stuck => Outcome::Stuck,
        },
{
    let members = dice_members(left, right);
    reveal_with_fuel(next_of_tier, 3);
    assert(next_of_tier(members, Tier::Dice, 0) == 1);
    assert(operand(members, 0) == left);
    assert(operand(members, 2) == right);
    match roll_outcome(left.value, right.value, tape) {
        Outcome::Done((total, faces), rest) => {
            let merged = dice_info(left, right, total, faces);
            assert(spliced(members, 1, merged) =~= seq![MemberView::NonBinop(merged)]);
            lemma_single_operand(merged, rest);
            assert(dice_reduced(seq![MemberView::NonBinop(merged)], rest) == Outcome::Done(
                seq![MemberView::NonBinop(merged)],
                rest,
            ));
            assert(dice_reduced(members, tape) == Outcome::Done(
                seq![MemberView::NonBinop(merged)],
                rest,
            ));
        },
        Outcome::Failed(e) => {
            assert(dice_reduced(members, tape) == Outcome::<Seq<MemberView>>::Failed(e));
        },
        Outcome::Stuck => {
            assert(dice_reduced(members, tape) == Outcome::<Seq<MemberView>>::Stuck);
        },
    }
}

/// An input `NdM`, where `N` and `M` are runs of digits that write numbers
/// below 2^96 and `M` is not zero, rolls one group of dice: `N` faces, each
/// from 1 to `M`, under the text of the input. Its value is the sum of the
/// faces, and its text with markers is one marker. It fails only where the
/// sum no longer fits in a decimal.
pub proof fn theorem_plain_dice(count: Seq<char>, sides: Seq<char>, tape: Seq<int>)
    requires
        count.len() > 0,
        all_digits(count),
        digits_value(count) <= MAX_MANTISSA,
        sides.len() > 0,
        all_digits(sides),
        1 <= digits_value(sides) <= MAX_MANTISSA,
    ensures
        match input_outcome(count + seq!['d'] + sides, tape) {
            Outcome::Done(info, rest) => {
                &&& info.rolls.len() == 1
                &&& info.rolls[0].len() == digits_value(count)
                &&& faces_on_die(info.rolls[0], 0, digits_value(sides))
                &&& info.value == Dec::whole(faces_sum(info.rolls[0], 0))
                &&& info.original_roll_texts == seq![count + seq!['d'] + sides]
                &&& info.processed_string == seq!['{', '}']
                &&& rest.len() + digits_value(count) == tape.len()
            },
            Outcome::Failed(e) => e == RollError::Overflow,
            Outcome::Stuck => true,
        },
{
    let n = digits_value(count);
    let m = digits_value(sides);
    let left = number_info(Dec::whole(n), count);
    let right = number_info(Dec::whole(m), sides);
    lemma_digits_value_is_natural(count);
    lemma_plain_dice_is_read(count, sides);
    lemma_plain_dice_members(count, sides, tape);
    lemma_dice_sequence(left, right, tape);
    lemma_whole(n);
    lemma_whole(m);
    theorem_roll(Dec::whole(n), Dec::whole(m), tape);
    match roll_outcome(Dec::whole(n), Dec::whole(m), tape) {
        Outcome::Done((total, faces), rest) => {
            let merged = dice_info(left, right, total, faces);
            assert(merged.rolls =~= seq![faces]);
            assert(merged.original_roll_texts =~= seq![count + seq!['d'] + sides]);
        },
        _ => {},
    }
}

/// A well-formed result has one text for each group of dice, and once a
/// text without braces has been put in for each group, in place of the
/// markers of its text, no marker and no brace is left.
pub proof fn theorem_markers_are_filled(info: RollView, fillers: Seq<Seq<char>>)
    requires
        info.wf(),
        fillers.len() == info.rolls.len(),
        forall|k: int| 0 <= k < fillers.len() ==> brace_free(#[trigger] fillers[k]),
    ensures
        info.original_roll_texts.len() == info.rolls.len(),
        brace_free(filled(info.processed_string, fillers)),
{
    lemma_filled(info.processed_string, fillers);
    lemma_no_opens(filled(info.processed_string, fillers));
}

/// An outcome with `tape` as the faces left over.
pub open spec fn on_tape<T>(outcome: Outcome<T>, tape: Seq<int>) -> Outcome<T> {
    match outcome {
        Outcome::Done(found, _) => Outcome::Done(found, tape),
        Outcome::Failed(e) => Outcome::Failed(e),
        Outcome::Stuck => Outcome::Stuck,
    }
}

/// Where no operator of a rank is left, none is found.
pub proof fn lemma_free_of_tier(members: Seq<MemberView>, tier: Tier, from: int)
    requires
        free_of(members, tier),
        0 <= from,
    ensures
        next_of_tier(members, tier, from) == members.len(),
    decreases members.len() - from,
{
    if from < members.len() {
        assert(!is_of_tier(members[from], tier));
        lemma_free_of_tier(members, tier, from + 1);
    }
}

/// A sequence without `d` draws no face: it comes to the same on every
/// run of faces, and leaves the run untouched.
pub proof fn lemma_sequence_without_dice(members: Seq<MemberView>, tape: Seq<int>)
    requires
        free_of(members, Tier::Dice),
    ensures
        sequence_outcome(members, tape) == on_tape(
            sequence_outcome(members, Seq::<int>::empty()),
            tape,
        ),
        !(sequence_outcome(members, tape) is Stuck),
        sequence_outcome(members, tape) matches Outcome::Done(_, rest) ==> rest == tape,
{
    lemma_free_of_tier(members, Tier::Dice, 0);
    assert(dice_reduced(members, tape) == Outcome::Done(members, tape));
    assert(dice_reduced(members, Seq::<int>::empty()) == Outcome::Done(
        members,
        Seq::<int>::empty(),
    ));
}

/// An atom without dice comes to the same on every run of faces.
pub proof fn lemma_atom_without_dice(atom: AtomView, tape: Seq<int>)
    requires
        atom.dice_free(),
    ensures
        atom_outcome(atom, tape) == on_tape(atom_outcome(atom, Seq::<int>::empty()), tape),
        !(atom_outcome(atom, tape) is Stuck),
        atom_outcome(atom, tape) matches Outcome::Done(_, rest) ==> rest == tape,
    decreases atom, 0nat,
{
    match atom {
        AtomView::Number(_) => {},
        AtomView::Group(chain) => {
            theorem_without_dice(*chain, tape);
            theorem_without_dice(*chain, Seq::<int>::empty());
        },
    }
}

/// An operand without dice comes to the same on every run of faces.
pub proof fn lemma_operand_without_dice(item: OperandView, tape: Seq<int>)
    requires
        item.dice_free(),
    ensures
        operand_outcome(item, tape) == on_tape(
            operand_outcome(item, Seq::<int>::empty()),
            tape,
        ),
        !(operand_outcome(item, tape) is Stuck),
        operand_outcome(item, tape) matches Outcome::Done(_, rest) ==> rest == tape,
    decreases item, 0nat,
{
    match item {
        OperandView::Plain(atom) => {
            lemma_atom_without_dice(atom, tape);
            lemma_atom_without_dice(atom, Seq::<int>::empty());
        },
        OperandView::Signed(_, atom) => {
            lemma_atom_without_dice(atom, tape);
            lemma_atom_without_dice(atom, Seq::<int>::empty());
        },
    }
}

/// The operands of a sequence without dice come to the same on every run
/// of faces, and no `d` stands between them.
pub proof fn lemma_members_without_dice(chain: ChainView, tape: Seq<int>)
    requires
        chain.dice_free(),
    ensures
        members_outcome(chain, tape) == on_tape(
            members_outcome(chain, Seq::<int>::empty()),
            tape,
        ),
        !(members_outcome(chain, tape) is Stuck),
        members_outcome(chain, tape) matches Outcome::Done(members, rest) ==> free_of(
            members,
            Tier::Dice,
        ) && rest == tape,
    decreases chain, 0nat,
{
    match chain {
        ChainView::Single(item) => {
            lemma_operand_without_dice(item, tape);
            lemma_operand_without_dice(item, Seq::<int>::empty());
        },
        ChainView::Link(item, op, others) => {
            lemma_operand_without_dice(item, tape);
            lemma_operand_without_dice(item, Seq::<int>::empty());
            lemma_members_without_dice(*others, tape);
            lemma_members_without_dice(*others, Seq::<int>::empty());
            match (operand_outcome(item, tape), members_outcome(*others, tape)) {
                (Outcome::Done(info, _), Outcome::Done(members, _)) => {
                    let all = seq![MemberView::NonBinop(info), MemberView::Binop(op)] + members;
                    assert forall|i: int| 0 <= i < all.len() implies !is_of_tier(
                        #[trigger] all[i],
                        Tier::Dice,
                    ) by {
                        if i >= 2 {
                            assert(all[i] == members[i - 2]);
                        }
                    }
                },
                _ => {},
            }
        },
    }
}

/// An expression without dice leaves nothing to chance: it comes to the
/// same result, or fails with the same error, on every run of faces, and
/// draws none of them.
pub proof fn theorem_without_dice(chain: ChainView, tape: Seq<int>)
    requires
        chain.dice_free(),
    ensures
        chain_outcome(chain, tape) == on_tape(chain_outcome(chain, Seq::<int>::empty()), tape),
        !(chain_outcome(chain, tape) is Stuck),
        chain_outcome(chain, tape) matches Outcome::Done(_, rest) ==> rest == tape,
    decreases chain, 1nat,
{
    lemma_members_without_dice(chain, tape);
    lemma_members_without_dice(chain, Seq::<int>::empty());
    match members_outcome(chain, tape) {
        Outcome::Done(members, _) => {
            lemma_sequence_without_dice(members, tape);
            lemma_sequence_without_dice(members, Seq::<int>::empty());
        },
        _ => {},
    }
}

/// The result of `left op right` for an operator other than `d`.
pub open spec fn applied(op: Binop, left: RollView, right: RollView) -> Result<
    RollView,
    RollError,
> {
    match arithmetic_value(op, left.value, right.value) {
        Ok(value) => Ok(arithmetic_info(op, left, right, value)),
        Err(e) => Err(e),
    }
}

/// The members of `left op right`.
pub open spec fn pair_members(left: RollView, op: Binop, right: RollView) -> Seq<MemberView> {
    seq![MemberView::NonBinop(left), MemberView::Binop(op), MemberView::NonBinop(right)]
}

/// The members of `a first b second c`.
pub open spec fn triple_members(
    a: RollView,
    first: Binop,
    b: RollView,
    second: Binop,
    c: RollView,
) -> Seq<MemberView> {
    seq![
        MemberView::NonBinop(a),
        MemberView::Binop(first),
        MemberView::NonBinop(b),
        MemberView::Binop(second),
        MemberView::NonBinop(c),
    ]
}

/// A pass over one operand leaves it as it is.
pub proof fn lemma_pass_over_one(info: RollView, tier: Tier)
    ensures
        tier_reduced(seq![MemberView::NonBinop(info)], tier) == Ok::<Seq<MemberView>, RollError>(
            seq![MemberView::NonBinop(info)],
        ),
{
    reveal_with_fuel(next_of_tier, 2);
    assert(next_of_tier(seq![MemberView::NonBinop(info)], tier, 0) == 1);
}

/// A pass over `left op right` applies the operator where it is of the
/// rank of the pass, and leaves the sequence as it is otherwise.
pub proof fn lemma_pass_over_pair(left: RollView, op: Binop, right: RollView, tier: Tier)
    requires
        op != Binop::Dice,
    ensures
        tier_reduced(pair_members(left, op, right), tier) == if tier_of(op) == tier {
            match applied(op, left, right) {
                Ok(merged) => Ok(seq![MemberView::NonBinop(merged)]),
                Err(e) => Err(e),
            }
        } else {
            Ok(pair_members(left, op, right))
        },
{
    let members = pair_members(left, op, right);
    reveal_with_fuel(next_of_tier, 4);
    if tier_of(op) == tier {
        assert(next_of_tier(members, tier, 0) == 1);
        assert(operand(members, 0) == left);
        assert(operand(members, 2) == right);
        assert(operator(members, 1) == op);
        match applied(op, left, right) {
            Ok(merged) => {
                assert(spliced(members, 1, merged) =~= seq![MemberView::NonBinop(merged)]);
                lemma_pass_over_one(merged, tier);
            },
            Err(_) => {},
        }
    } else {
        assert(next_of_tier(members, tier, 0) == 3);
    }
}

/// Of two operators other than `d`, the first is applied first, unless it
/// is a `+` or `-` and the second a `*`, `/` or `%`: operators of one rank
/// are applied left to right, and `*`, `/`, `%` before `+`, `-`.
pub proof fn theorem_two_operators(
    a: RollView,
    first: Binop,
    b: RollView,
    second: Binop,
    c: RollView,
    tape: Seq<int>,
)
    requires
        first != Binop::Dice,
        second != Binop::Dice,
    ensures
        sequence_outcome(triple_members(a, first, b, second, c), tape) == if tier_of(first)
            == Tier::Additive && tier_of(second) == Tier::Multiplicative {
            match applied(second, b, c) {
                Ok(right) => match applied(first, a, right) {
                    Ok(all) => Outcome::Done(all, tape),
                    Err(e) => Outcome::Failed(e),
                },
                Err(e) => Outcome::Failed(e),
            }
        } else {
            match applied(first, a, b) {
                Ok(left) => match applied(second, left, c) {
                    Ok(all) => Outcome::Done(all, tape),
                    Err(e) => Outcome::Failed(e),
                },
                Err(e) => Outcome::Failed(e),
            }
        },
{
    let members = triple_members(a, first, b, second, c);
    assert(free_of(members, Tier::Dice));
    lemma_free_of_tier(members, Tier::Dice, 0);
    assert(dice_reduced(members, tape) == Outcome::Done(members, tape));
    assert(operand(members, 0) == a);
    assert(operand(members, 2) == b);
    assert(operand(members, 4) == c);
    assert(operator(members, 1) == first);
    assert(operator(members, 3) == second);
    reveal_with_fuel(next_of_tier, 6);
    if tier_of(first) == Tier::Multiplicative {
        assert(next_of_tier(members, Tier::Multiplicative, 0) == 1);
        match applied(first, a, b) {
            Ok(left) => {
                assert(spliced(members, 1, left) =~= pair_members(left, second, c));
                lemma_pass_over_pair(left, second, c, Tier::Multiplicative);
                if tier_of(second) == Tier::Multiplicative {
                    match applied(second, left, c) {
                        Ok(all) => {
                            lemma_pass_over_one(all, Tier::Additive);
                        },
                        Err(_) => {},
                    }
                } else {
                    lemma_pass_over_pair(left, second, c, Tier::Additive);
                }
            },
            Err(_) => {},
        }
    } else if tier_of(second) == Tier::Multiplicative {
        assert(next_of_tier(members, Tier::Multiplicative, 0) == 3);
        match applied(second, b, c) {
            Ok(right) => {
                assert(spliced(members, 3, right) =~= pair_members(a, first, right));
                lemma_pass_over_pair(a, first, right, Tier::Multiplicative);
                lemma_pass_over_pair(a, first, right, Tier::Additive);
            },
            Err(_) => {},
        }
    } else {
        assert(next_of_tier(members, Tier::Multiplicative, 0) == 5);
        assert(next_of_tier(members, Tier::Additive, 0) == 1);
        match applied(first, a, b) {
            Ok(left) => {
                assert(spliced(members, 1, left) =~= pair_members(left, second, c));
                lemma_pass_over_pair(left, second, c, Tier::Additive);
            },
            Err(_) => {},
        }
    }
}

/// The three passes over `left op right`, for an operator other than `d`,
/// apply the operator.
pub proof fn lemma_arithmetic_sequence(left: RollView, op: Binop, right: RollView, tape: Seq<int>)
    requires
        op != Binop::Dice,
    ensures
        sequence_outcome(pair_members(left, op, right), tape) == match applied(op, left, right) {
            Ok(all) => Outcome::Done(all, tape),
            Err(e) => Outcome::Failed(e),
        },
{
    let members = pair_members(left, op, right);
    assert(free_of(members, Tier::Dice));
    lemma_free_of_tier(members, Tier::Dice, 0);
    assert(dice_reduced(members, tape) == Outcome::Done(members, tape));
    lemma_pass_over_pair(left, op, right, Tier::Multiplicative);
    lemma_pass_over_pair(left, op, right, Tier::Additive);
    if tier_of(op) == Tier::Multiplicative {
        match applied(op, left, right) {
            Ok(all) => {
                lemma_pass_over_one(all, Tier::Additive);
            },
            Err(_) => {},
        }
    }
}

/// Dice bind tighter than any other operator: in `a op b d c` the dice
/// `b d c` are rolled first, and `op` is applied to `a` and what they show.
pub proof fn theorem_dice_bind_tightest(
    a: RollView,
    op: Binop,
    b: RollView,
    c: RollView,
    tape: Seq<int>,
)
    requires
        op != Binop::Dice,
    ensures
        sequence_outcome(triple_members(a, op, b, Binop::Dice, c), tape) == match roll_outcome(
            b.value,
            c.value,
            tape,
        ) {
            Outcome::Done((sum, faces), rest) => match applied(
                op,
                a,
                dice_info(b, c, sum, faces),
            ) {
                Ok(all) => Outcome::Done(all, rest),
                Err(e) => Outcome::Failed(e),
            },
            Outcome::Failed(e) => Outcome::Failed(e),
            Outcome::Stuck => Outcome::Stuck,
        },
{
    let members = triple_members(a, op, b, Binop::Dice, c);
    reveal_with_fuel(next_of_tier, 6);
    assert(next_of_tier(members, Tier::Dice, 0) == 3);
    assert(operand(members, 2) == b);
    assert(operand(members, 4) == c);
    match roll_outcome(b.value, c.value, tape) {
        Outcome::Done((sum, faces), rest) => {
            let rolled = dice_info(b, c, sum, faces);
            let after = pair_members(a, op, rolled);
            assert(spliced(members, 3, rolled) =~= after);
            assert(free_of(after, Tier::Dice));
            lemma_free_of_tier(after, Tier::Dice, 0);
            assert(dice_reduced(after, rest) == Outcome::Done(after, rest));
            assert(dice_reduced(members, tape) == Outcome::Done(after, rest));
            lemma_arithmetic_sequence(a, op, rolled, rest);
        },
        Outcome::Failed(e) => {
            assert(dice_reduced(members, tape) == Outcome::<Seq<MemberView>>::Failed(e));
        },
        Outcome::Stuck => {
            assert(dice_reduced(members, tape) == Outcome::<Seq<MemberView>>::Stuck);
        },
    }
}

/// A run of digits and points ends within the text.
pub proof fn lemma_number_len_fits(s: Seq<char>, at: int)
    requires
        0 <= at <= s.len(),
    ensures
        at + number_len(s, at) <= s.len(),
    decreases s.len() - at,
{
    if at < s.len() && is_numeric(s[at]) {
        lemma_number_len_fits(s, at + 1);
    }
}

/// An atom that is read from a text is written by the part of the text
/// that it was read from.
pub proof fn lemma_atom_is_written(s: Seq<char>, at: int, before: Before)
    requires
        0 <= at <= s.len(),
        atom_at(s, at, before) is Ok,
    ensures
        at + atom_at(s, at, before).unwrap().1 <= s.len(),
        atom_at(s, at, before).unwrap().0.written() == s.subrange(
            at,
            at + atom_at(s, at, before).unwrap().1,
        ),
    decreases s.len() - at, 0nat,
{
    if at < s.len() && is_numeric(s[at]) {
        lemma_number_len_fits(s, at);
    } else if at < s.len() && s[at] == '(' {
        lemma_chain_is_written(s, at + 1, Before::Start);
        let (chain, len) = chain_at(s, at + 1, Before::Start).unwrap();
        assert(seq!['('] + s.subrange(at + 1, at + 1 + len) + seq![')'] =~= s.subrange(
            at,
            at + len + 2,
        ));
    }
}

/// An operand that is read from a text is written by the part of the text
/// that it was read from.
pub proof fn lemma_operand_is_written(s: Seq<char>, at: int, before: Before)
    requires
        0 <= at <= s.len(),
        operand_at(s, at, before) is Ok,
    ensures
        at + operand_at(s, at, before).unwrap().1 <= s.len(),
        operand_at(s, at, before).unwrap().0.written() == s.subrange(
            at,
            at + operand_at(s, at, before).unwrap().1,
        ),
    decreases s.len() - at, 1nat,
{
    if at < s.len() && is_sign(s[at]) {
        lemma_atom_is_written(s, at + 1, Before::Operator);
        let (atom, len) = atom_at(s, at + 1, Before::Operator).unwrap();
        assert(seq![s[at]] + s.subrange(at + 1, at + 1 + len) =~= s.subrange(at, at + len + 1));
    } else {
        lemma_atom_is_written(s, at, before);
    }
}

/// A sequence that is read from a text is written by the part of the text
/// that it was read from.
pub proof fn lemma_chain_is_written(s: Seq<char>, at: int, before: Before)
    requires
        0 <= at <= s.len(),
        chain_at(s, at, before) is Ok,
    ensures
        at + chain_at(s, at, before).unwrap().1 <= s.len(),
        chain_at(s, at, before).unwrap().0.written() == s.subrange(
            at,
            at + chain_at(s, at, before).unwrap().1,
        ),
    decreases s.len() - at, 2nat,
{
    lemma_operand_is_written(s, at, before);
    let (first, len) = operand_at(s, at, before).unwrap();
    let next = at + len;
    if next >= s.len() || s[next] == ')' {
    } else if is_binop(s[next]) {
        lemma_chain_is_written(s, next + 1, Before::Operator);
        let (rest, more) = chain_at(s, next + 1, Before::Operator).unwrap();
        assert(s.subrange(at, next) + seq![s[next]] + s.subrange(next + 1, next + 1 + more)
            =~= s.subrange(at, at + len + 1 + more));
    }
}

/// Reading is faithful: the expression that is read from a text without
/// spaces is written by that very text.
pub proof fn theorem_reading_is_faithful(s: Seq<char>)
    requires
        expression_of(s) is Ok,
    ensures
        expression_of(s).unwrap().written() == s,
{
    lemma_chain_is_written(s, 0, Before::Start);
    assert(s.subrange(0, s.len() as int) =~= s);
}

} // verus!
