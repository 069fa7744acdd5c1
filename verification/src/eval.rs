//! The value of an expression.
//!
//! A sequence is valued in four steps. Each operand is valued first, left
//! to right. Then every `d` is replaced, left to right, together with its
//! two neighbours, by the dice it rolls; then every `*`, `/` and `%` by its
//! result, left to right; then every `+` and `-`. One operand is left.

use crate::decimal::{
    decimal_div, decimal_quotient, decimal_rem, decimal_remainder, difference_of, literal_value,
    negation, product_of, sum_of, Dec,
};
use crate::dice::{lemma_drawn_since, roll_dice, roll_outcome, DiceSource, Outcome};
use crate::error::RollError;
use crate::markers::{
    brace_free, lemma_brace_free, lemma_opens_add, lemma_paired_add, opens, paired,
};
use crate::parse::{RollInformation, RollView};
use crate::syntax::{
    glyph, is_numeric, numeric_text, sign_glyph, Atom, AtomView, Binop, Chain, ChainView, Operand,
    OperandView, Unop,
};
use vstd::prelude::*;

verus! {

/// An operand that has its value, or an operator that waits for its turn.
#[derive(Debug)]
pub enum BinopSequenceMember {
    NonBinop(RollInformation),
    Binop(Binop),
}

/// The mathematical form of a [`BinopSequenceMember`].
pub enum MemberView {
    NonBinop(RollView),
    Binop(Binop),
}

impl BinopSequenceMember {
    pub open spec fn view(&self) -> MemberView {
        match self {
            BinopSequenceMember::NonBinop(info) => MemberView::NonBinop(info@),
            BinopSequenceMember::Binop(op) => MemberView::Binop(*op),
        }
    }
}

/// The mathematical form of a list of members.
pub open spec fn members_of(sequence: Seq<BinopSequenceMember>) -> Seq<MemberView> {
    sequence.map_values(|m: BinopSequenceMember| m@)
}

/// The three ranks of binary operators, tightest first.
#[derive(Clone, Copy, Debug, PartialEq, Eq, Structural)]
pub enum Tier {
    Dice,
    Multiplicative,
    Additive,
}

/// The rank of an operator.
pub open spec fn tier_of(op: Binop) -> Tier {
    match op {
        Binop::Dice => Tier::Dice,
        Binop::Times | Binop::Divide | Binop::Mod => Tier::Multiplicative,
        Binop::Plus | Binop::Minus => Tier::Additive,
    }
}

/// The marker that stands in a text where dice were rolled.
pub open spec fn marker() -> Seq<char> {
    seq!['{', '}']
}

/// A number as a result: no dice.
pub open spec fn number_info(value: Dec, text: Seq<char>) -> RollView {
    RollView {
        value,
        processed_string: text,
        original_roll_texts: Seq::empty(),
        rolls: Seq::empty(),
    }
}

/// The result of a sequence, as the group in parentheses that holds it.
pub open spec fn group_info(inner: RollView) -> RollView {
    RollView { processed_string: seq!['('] + inner.processed_string + seq![')'], ..inner }
}

/// The value behind a sign.
pub open spec fn signed_value(sign: Unop, value: Dec) -> Dec {
    match sign {
        Unop::Plus => value,
        Unop::Minus => negation(value),
    }
}

/// The result behind a sign.
pub open spec fn signed_info(sign: Unop, inner: RollView) -> RollView {
    RollView {
        value: signed_value(sign, inner.value),
        processed_string: seq![sign_glyph(sign)] + inner.processed_string,
        ..inner
    }
}

/// The result of `left d right`, given the sum and the faces rolled.
pub open spec fn dice_info(left: RollView, right: RollView, sum: Dec, faces: Seq<Dec>) -> RollView {
    RollView {
        value: sum,
        processed_string: marker(),
        original_roll_texts: left.original_roll_texts + seq![
            left.processed_string + seq!['d'] + right.processed_string,
        ] + right.original_roll_texts,
        rolls: left.rolls + seq![faces] + right.rolls,
    }
}

/// The value of `a op b` for an operator other than `d`.
pub open spec fn arithmetic_value(op: Binop, a: Dec, b: Dec) -> Result<Dec, RollError> {
    let found = match op {
        Binop::Plus => sum_of(a, b),
        Binop::Minus => difference_of(a, b),
        Binop::Times => product_of(a, b),
        Binop::Divide => decimal_quotient(a, b),
        _ => decimal_remainder(a, b),
    };
    if (op == Binop::Divide || op == Binop::Mod) && b.mantissa == 0 {
        Err(RollError::DivisionByZero)
    } else {
        match found {
            Some(value) => Ok(value),
            None => Err(RollError::Overflow),
        }
    }
}

/// The result of `left op right` for an operator other than `d`, given its
/// value.
pub open spec fn arithmetic_info(op: Binop, left: RollView, right: RollView, value: Dec)
    -> RollView {
    RollView {
        value,
        processed_string: left.processed_string + seq![glyph(op)] + right.processed_string,
        original_roll_texts: left.original_roll_texts + right.original_roll_texts,
        rolls: left.rolls + right.rolls,
    }
}

/// Whether a member is an operator of the given rank.
pub open spec fn is_of_tier(member: MemberView, tier: Tier) -> bool {
    match member {
        MemberView::Binop(op) => tier_of(op) == tier,
        MemberView::NonBinop(_) => false,
    }
}

/// The place of the first operator of the given rank at or after `from`;
/// the length of the sequence where there is none.
pub open spec fn next_of_tier(members: Seq<MemberView>, tier: Tier, from: int) -> int
    decreases members.len() - from,
{
    if from < 0 || from >= members.len() {
        members.len() as int
    } else if is_of_tier(members[from], tier) {
        from
    } else {
        next_of_tier(members, tier, from + 1)
    }
}

/// No operator of the given rank is left.
pub open spec fn free_of(members: Seq<MemberView>, tier: Tier) -> bool {
    forall|i: int| 0 <= i < members.len() ==> !is_of_tier(#[trigger] members[i], tier)
}

/// Operands and operators take turns, with an operand at each end, and
/// every operand is well formed.
pub open spec fn alternating(members: Seq<MemberView>) -> bool {
    &&& members.len() % 2 == 1
    &&& forall|i: int|
        0 <= i < members.len() ==> match #[trigger] members[i] {
            MemberView::NonBinop(info) => i % 2 == 0 && info.wf(),
            MemberView::Binop(_) => i % 2 == 1,
        }
}

/// The operand at place `i`.
pub open spec fn operand(members: Seq<MemberView>, i: int) -> RollView {
    match members[i] {
        MemberView::NonBinop(info) => info,
        MemberView::Binop(_) => arbitrary(),
    }
}

/// The operator at place `i`.
pub open spec fn operator(members: Seq<MemberView>, i: int) -> Binop {
    match members[i] {
        MemberView::Binop(op) => op,
        MemberView::NonBinop(_) => arbitrary(),
    }
}

/// The sequence with the operator at `at` and its two neighbours replaced
/// by one operand.
pub open spec fn spliced(members: Seq<MemberView>, at: int, merged: RollView) -> Seq<MemberView> {
    members.subrange(0, at - 1).push(MemberView::NonBinop(merged)) + members.subrange(
        at + 2,
        members.len() as int,
    )
}

/// The sequence once every `d` has rolled, left to right, on the faces of
/// `tape`.
pub open spec fn dice_reduced(members: Seq<MemberView>, tape: Seq<int>) -> Outcome<Seq<MemberView>>
    decreases members.len(),
{
    let at = next_of_tier(members, Tier::Dice, 0);
    if 1 <= at && at + 1 < members.len() {
        let left = operand(members, at - 1);
        let right = operand(members, at + 1);
        match roll_outcome(left.value, right.value, tape) {
            Outcome::Done((sum, faces), rest) => dice_reduced(
                spliced(members, at, dice_info(left, right, sum, faces)),
                rest,
            ),
            Outcome::Failed(e) => Outcome::Failed(e),
            Outcome::Stuck => Outcome::Stuck,
        }
    } else {
        Outcome::Done(members, tape)
    }
}

/// The sequence once every operator of the given rank has been applied,
/// left to right.
pub open spec fn tier_reduced(members: Seq<MemberView>, tier: Tier) -> Result<
    Seq<MemberView>,
    RollError,
>
    decreases members.len(),
{
    let at = next_of_tier(members, tier, 0);
    if 1 <= at && at + 1 < members.len() {
        let left = operand(members, at - 1);
        let right = operand(members, at + 1);
        let op = operator(members, at);
        match arithmetic_value(op, left.value, right.value) {
            Ok(value) => tier_reduced(
                spliced(members, at, arithmetic_info(op, left, right, value)),
                tier,
            ),
            Err(e) => Err(e),
        }
    } else {
        Ok(members)
    }
}

/// The result of a sequence whose operands have their values.
pub open spec fn sequence_outcome(members: Seq<MemberView>, tape: Seq<int>) -> Outcome<RollView> {
    match dice_reduced(members, tape) {
        Outcome::Done(rolled, rest) => match tier_reduced(rolled, Tier::Multiplicative) {
            Ok(multiplied) => match tier_reduced(multiplied, Tier::Additive) {
                Ok(added) => Outcome::Done(operand(added, 0), rest),
                Err(e) => Outcome::Failed(e),
            },
            Err(e) => Outcome::Failed(e),
        },
        Outcome::Failed(e) => Outcome::Failed(e),
        Outcome::Stuck => Outcome::Stuck,
    }
}

/// The result of an atom on the faces of `tape`.
pub open spec fn atom_outcome(atom: AtomView, tape: Seq<int>) -> Outcome<RollView>
    decreases atom, 0nat,
{
    match atom {
        AtomView::Number(text) => match literal_value(text) {
            Some(value) => Outcome::Done(number_info(value, text), tape),
            None => Outcome::Failed(RollError::LiteralOutOfRange),
        },
        AtomView::Group(chain) => match chain_outcome(*chain, tape) {
            Outcome::Done(inner, rest) => Outcome::Done(group_info(inner), rest),
            Outcome::Failed(e) => Outcome::Failed(e),
            Outcome::Stuck => Outcome::Stuck,
        },
    }
}

/// The result of an operand on the faces of `tape`.
pub open spec fn operand_outcome(item: OperandView, tape: Seq<int>) -> Outcome<RollView>
    decreases item, 0nat,
{
    match item {
        OperandView::Plain(atom) => atom_outcome(atom, tape),
        OperandView::Signed(sign, atom) => match atom_outcome(atom, tape) {
            Outcome::Done(inner, rest) => Outcome::Done(signed_info(sign, inner), rest),
            Outcome::Failed(e) => Outcome::Failed(e),
            Outcome::Stuck => Outcome::Stuck,
        },
    }
}

/// The operands of a sequence with their values, and its operators, on the
/// faces of `tape`.
pub open spec fn members_outcome(chain: ChainView, tape: Seq<int>) -> Outcome<Seq<MemberView>>
    decreases chain, 0nat,
{
    match chain {
        ChainView::Single(item) => match operand_outcome(item, tape) {
            Outcome::Done(info, rest) => Outcome::Done(seq![MemberView::NonBinop(info)], rest),
            Outcome::Failed(e) => Outcome::Failed(e),
            Outcome::Stuck => Outcome::Stuck,
        },
        ChainView::Link(item, op, others) => match operand_outcome(item, tape) {
            Outcome::Done(info, rest) => match members_outcome(*others, rest) {
                Outcome::Done(members, last) => Outcome::Done(
                    seq![MemberView::NonBinop(info), MemberView::Binop(op)] + members,
                    last,
                ),
                Outcome::Failed(e) => Outcome::Failed(e),
                Outcome::Stuck => Outcome::Stuck,
            },
            Outcome::Failed(e) => Outcome::Failed(e),
            Outcome::Stuck => Outcome::Stuck,
        },
    }
}

/// The result of a sequence on the faces of `tape`.
pub open spec fn chain_outcome(chain: ChainView, tape: Seq<int>) -> Outcome<RollView>
    decreases chain, 1nat,
{
    match members_outcome(chain, tape) {
        Outcome::Done(members, rest) => sequence_outcome(members, rest),
        Outcome::Failed(e) => Outcome::Failed(e),
        Outcome::Stuck => Outcome::Stuck,
    }
}

/// The text that writes an operator.
pub fn glyph_text(op: Binop) -> (r: &'static str)
    ensures
        r@ == seq![glyph(op)],
{
    proof {
        reveal_strlit("d");
        reveal_strlit("+");
        reveal_strlit("-");
        reveal_strlit("*");
        reveal_strlit("/");
        reveal_strlit("%");
    }
    let text = match op {
        Binop::Dice => "d",
        Binop::Plus => "+",
        Binop::Minus => "-",
        Binop::Times => "*",
        Binop::Divide => "/",
        Binop::Mod => "%",
    };
    proof {
        assert(text@ =~= seq![glyph(op)]);
    }
    text
}

/// A number as a result.
pub fn number_information(value: Dec, text: String) -> (r: RollInformation)
    ensures
        r@ == number_info(value, text@),
        value.wf() && numeric_text(text@) ==> r@.wf(),
{
    let r = RollInformation::new(value, text, Vec::new(), Vec::new());
    proof {
        assert(r@.original_roll_texts =~= Seq::<Seq<char>>::empty());
        assert(r@.rolls =~= Seq::<Seq<Dec>>::empty());
        if numeric_text(text@) {
            assert forall|i: int| 0 <= i < text@.len() implies #[trigger] text@[i] != '{'
                && text@[i] != '}' by {
                assert(is_numeric(text@[i]));
            }
            lemma_brace_free(text@);
        }
    }
    r
}

/// A text without braces around a text, or between two texts, adds no
/// marker and leaves every brace in a marker.
pub proof fn lemma_joined_texts(left: Seq<char>, between: Seq<char>, right: Seq<char>)
    requires
        paired(left),
        brace_free(between),
        paired(right),
    ensures
        paired(left + between + right),
        opens(left + between + right) == opens(left) + opens(right),
{
    lemma_brace_free(between);
    lemma_paired_add(left, between);
    lemma_paired_add(left + between, right);
    lemma_opens_add(left, between);
    lemma_opens_add(left + between, right);
}

/// Puts a result in parentheses.
pub fn group_information(inner: RollInformation) -> (r: RollInformation)
    ensures
        r@ == group_info(inner@),
        inner@.wf() ==> r@.wf(),
{
    let RollInformation { value, processed_string, original_roll_texts, rolls } = inner;
    proof {
        reveal_strlit("(");
        reveal_strlit(")");
    }
    let mut text = String::from_str("(");
    text.append(processed_string.as_str());
    text.append(")");
    proof {
        assert(text@ =~= seq!['('] + processed_string@ + seq![')']);
        if paired(processed_string@) {
            lemma_brace_free(seq!['(']);
            lemma_joined_texts(seq!['('], Seq::<char>::empty(), processed_string@);
            assert(seq!['('] + Seq::<char>::empty() + processed_string@ =~= seq!['(']
                + processed_string@);
            lemma_joined_texts(seq!['('] + processed_string@, seq![')'], Seq::<char>::empty());
            assert(seq!['('] + processed_string@ + seq![')'] + Seq::<char>::empty() =~= text@);
            lemma_brace_free(Seq::<char>::empty());
        }
    }
    RollInformation::new(value, text, original_roll_texts, rolls)
}

/// Puts a sign in front of a result.
pub fn signed_information(sign: Unop, inner: RollInformation) -> (r: RollInformation)
    requires
        inner@.wf(),
    ensures
        r@ == signed_info(sign, inner@),
        r@.wf(),
{
    let RollInformation { value, processed_string, original_roll_texts, rolls } = inner;
    proof {
        reveal_strlit("+");
        reveal_strlit("-");
        lemma_brace_free(Seq::<char>::empty());
        lemma_joined_texts(Seq::<char>::empty(), seq![sign_glyph(sign)], processed_string@);
    }
    let (signed, mut text) = match sign {
        Unop::Plus => (value, String::from_str("+")),
        Unop::Minus => (value.negated(), String::from_str("-")),
    };
    text.append(processed_string.as_str());
    proof {
        assert(text@ =~= seq![sign_glyph(sign)] + processed_string@);
        assert(Seq::<char>::empty() + seq![sign_glyph(sign)] + processed_string@ =~= text@);
    }
    RollInformation::new(signed, text, original_roll_texts, rolls)
}

/// The result of `left d right`, from the sum and the faces rolled.
pub fn dice_information(
    left: RollInformation,
    right: RollInformation,
    sum: Dec,
    faces: Vec<Dec>,
) -> (r: RollInformation)
    requires
        left@.wf(),
        right@.wf(),
        sum.wf(),
        forall|i: int| 0 <= i < faces@.len() ==> (#[trigger] faces@[i]).wf(),
    ensures
        r@ == dice_info(left@, right@, sum, faces@),
        r@.wf(),
{
    let ghost left_view = left@;
    let ghost right_view = right@;
    let RollInformation { value: _, processed_string, original_roll_texts, rolls } = left;
    let RollInformation {
        value: _,
        processed_string: right_string,
        original_roll_texts: right_texts,
        rolls: right_rolls,
    } = right;
    proof {
        reveal_strlit("d");
        reveal_strlit("{}");
    }
    let mut text = processed_string;
    text.append("d");
    text.append(right_string.as_str());
    let mut texts = original_roll_texts;
    let mut more_texts = right_texts;
    texts.push(text);
    texts.append(&mut more_texts);
    let mut groups = rolls;
    let mut more_groups = right_rolls;
    groups.push(faces);
    groups.append(&mut more_groups);
    let marker_text = String::from_str("{}");
    let r = RollInformation::new(sum, marker_text, texts, groups);
    proof {
        assert(text@ =~= left_view.processed_string + seq!['d'] + right_view.processed_string);
        assert(r@.processed_string =~= marker());
        assert(opens(marker()) == 1) by {
            reveal_with_fuel(opens, 3);
            assert(marker().drop_last() =~= seq!['{']);
            assert(seq!['{'].drop_last() =~= Seq::<char>::empty());
        }
        assert(paired(marker()));
        assert(r@.original_roll_texts =~= dice_info(
            left_view,
            right_view,
            sum,
            faces@,
        ).original_roll_texts);
        assert(r@.rolls =~= dice_info(left_view, right_view, sum, faces@).rolls);
    }
    r
}

/// The result of `left op right` for an operator other than `d`.
pub fn arithmetic_information(op: Binop, left: RollInformation, right: RollInformation) -> (r:
    Result<RollInformation, RollError>)
    requires
        op != Binop::Dice,
        left@.wf(),
        right@.wf(),
    ensures
        match r {
            Ok(info) => arithmetic_value(op, left@.value, right@.value) == Ok::<Dec, RollError>(
                info@.value,
            ) && info@ == arithmetic_info(op, left@, right@, info@.value) && info@.wf(),
            Err(e) => arithmetic_value(op, left@.value, right@.value) == Err::<Dec, RollError>(e),
        },
{
    let ghost left_view = left@;
    let ghost right_view = right@;
    let a = left.value;
    let b = right.value;
    if (op == Binop::Divide || op == Binop::Mod) && b.is_zero() {
        return Err(RollError::DivisionByZero);
    }
    let found = match op {
        Binop::Plus => a.checked_add(b),
        Binop::Minus => a.checked_sub(b),
        Binop::Times => a.checked_mul(b),
        Binop::Divide => decimal_div(a, b),
        _ => decimal_rem(a, b),
    };
    match found {
        None => Err(RollError::Overflow),
        Some(value) => {
            let RollInformation { value: _, processed_string, original_roll_texts, rolls } = left;
            let RollInformation {
                value: _,
                processed_string: right_string,
                original_roll_texts: right_texts,
                rolls: right_rolls,
            } = right;
            let mut text = processed_string;
            text.append(glyph_text(op));
            text.append(right_string.as_str());
            let mut texts = original_roll_texts;
            let mut more_texts = right_texts;
            texts.append(&mut more_texts);
            let mut groups = rolls;
            let mut more_groups = right_rolls;
            groups.append(&mut more_groups);
            let r = RollInformation::new(value, text, texts, groups);
            proof {
                let want = arithmetic_info(op, left_view, right_view, value);
                assert(text@ =~= want.processed_string);
                lemma_joined_texts(
                    left_view.processed_string,
                    seq![glyph(op)],
                    right_view.processed_string,
                );
                assert(r@.original_roll_texts =~= want.original_roll_texts);
                assert(r@.rolls =~= want.rolls);
            }
            Ok(r)
        },
    }
}

/// The rank of an operator.
pub fn rank(op: Binop) -> (r: Tier)
    ensures
        r == tier_of(op),
{
    match op {
        Binop::Dice => Tier::Dice,
        Binop::Times | Binop::Divide | Binop::Mod => Tier::Multiplicative,
        Binop::Plus | Binop::Minus => Tier::Additive,
    }
}

/// Where no operator of a rank is found from the start, none is left.
pub proof fn lemma_none_of_tier(members: Seq<MemberView>, tier: Tier, from: int)
    requires
        0 <= from,
        next_of_tier(members, tier, from) >= members.len(),
    ensures
        forall|i: int| from <= i < members.len() ==> !is_of_tier(#[trigger] members[i], tier),
    decreases members.len() - from,
{
    if from < members.len() {
        lemma_none_of_tier(members, tier, from + 1);
    }
}

/// A splice at an operator keeps the turns of operands and operators, and
/// brings in no operator.
pub proof fn lemma_spliced(members: Seq<MemberView>, at: int, merged: RollView)
    requires
        alternating(members),
        1 <= at,
        at + 1 < members.len(),
        members[at] is Binop,
        merged.wf(),
    ensures
        alternating(spliced(members, at, merged)),
        spliced(members, at, merged).len() + 2 == members.len(),
        forall|tier: Tier| #[trigger]
            free_of(members, tier) ==> free_of(spliced(members, at, merged), tier),
{
    let after = spliced(members, at, merged);
    assert(at % 2 == 1);
    assert forall|i: int| 0 <= i < after.len() implies match #[trigger] after[i] {
        MemberView::NonBinop(info) => i % 2 == 0 && info.wf(),
        MemberView::Binop(_) => i % 2 == 1,
    } by {
        if i < at - 1 {
            assert(after[i] == members[i]);
        } else if i == at - 1 {
            assert(after[i] == MemberView::NonBinop(merged));
        } else {
            assert(after[i] == members[i + 2]);
        }
    }
    assert forall|tier: Tier| #[trigger] free_of(members, tier) implies free_of(after, tier) by {
        assert forall|i: int| 0 <= i < after.len() implies !is_of_tier(
            #[trigger] after[i],
            tier,
        ) by {
            if i < at - 1 {
                assert(after[i] == members[i]);
            } else if i == at - 1 {
                assert(after[i] == MemberView::NonBinop(merged));
            } else {
                assert(after[i] == members[i + 2]);
            }
        }
    }
}

/// The place of the first operator of the given rank; the length of the
/// sequence where there is none.
pub fn position_of_tier(sequence: &Vec<BinopSequenceMember>, tier: Tier) -> (r: usize)
    ensures
        r == next_of_tier(members_of(sequence@), tier, 0),
        r <= sequence.len(),
        r < sequence.len() ==> is_of_tier(members_of(sequence@)[r as int], tier),
{
    let mut i: usize = 0;
    while i < sequence.len()
        invariant
            0 <= i <= sequence.len(),
            next_of_tier(members_of(sequence@), tier, 0) == next_of_tier(
                members_of(sequence@),
                tier,
                i as int,
            ),
        decreases sequence.len() - i,
    {
        let found = match &sequence[i] {
            BinopSequenceMember::Binop(op) => rank(*op) == tier,
            BinopSequenceMember::NonBinop(_) => false,
        };
        proof {
            assert(members_of(sequence@)[i as int] == sequence@[i as int]@);
        }
        if found {
            return i;
        }
        i = i + 1;
    }
    i
}

/// The result that an operand holds.
pub fn take_operand(member: BinopSequenceMember) -> (r: RollInformation)
    requires
        member@ is NonBinop,
    ensures
        member@ == MemberView::NonBinop(r@),
{
    match member {
        BinopSequenceMember::NonBinop(info) => info,
        BinopSequenceMember::Binop(_) => vstd::pervasive::unreached(),
    }
}

/// The operator that a member is.
pub fn take_operator(member: BinopSequenceMember) -> (r: Binop)
    requires
        member@ is Binop,
    ensures
        member@ == MemberView::Binop(r),
{
    match member {
        BinopSequenceMember::Binop(op) => op,
        BinopSequenceMember::NonBinop(_) => vstd::pervasive::unreached(),
    }
}

/// Takes the operator at `at` and its two neighbours out of the sequence.
fn take_triple(sequence: &mut Vec<BinopSequenceMember>, at: usize) -> (r: (
    RollInformation,
    Binop,
    RollInformation,
))
    requires
        alternating(members_of(old(sequence)@)),
        1 <= at,
        at + 1 < old(sequence).len(),
        members_of(old(sequence)@)[at as int] is Binop,
    ensures
        r.0@ == operand(members_of(old(sequence)@), at - 1),
        r.1 == operator(members_of(old(sequence)@), at as int),
        r.2@ == operand(members_of(old(sequence)@), at + 1),
        r.0@.wf(),
        r.2@.wf(),
        members_of(final(sequence)@) == members_of(old(sequence)@).subrange(0, at - 1)
            + members_of(old(sequence)@).subrange(at + 2, old(sequence).len() as int),
{
    let ghost before = members_of(sequence@);
    proof {
        assert(at % 2 == 1);
        assert(before[at - 1] == sequence@[at - 1]@);
        assert(before[at as int] == sequence@[at as int]@);
        assert(before[at + 1] == sequence@[at + 1]@);
    }
    let right = sequence.remove(at + 1);
    let middle = sequence.remove(at);
    let left = sequence.remove(at - 1);
    proof {
        assert(members_of(sequence@) =~= before.subrange(0, at - 1) + before.subrange(
            at + 2,
            before.len() as int,
        ));
    }
    (take_operand(left), take_operator(middle), take_operand(right))
}

/// Puts the merged operand where a triple was taken out at `at`.
fn put_merged(
    sequence: &mut Vec<BinopSequenceMember>,
    at: usize,
    merged: RollInformation,
    Ghost(before): Ghost<Seq<MemberView>>,
)
    requires
        1 <= at,
        at + 1 < before.len(),
        members_of(old(sequence)@) == before.subrange(0, at - 1) + before.subrange(
            at + 2,
            before.len() as int,
        ),
    ensures
        members_of(final(sequence)@) == spliced(before, at as int, merged@),
{
    let ghost taken = members_of(sequence@);
    let ghost earlier = sequence@;
    let ghost merged_view = merged@;
    proof {
        assert(taken.len() == sequence@.len());
        assert(before.subrange(0, at - 1).len() == at - 1);
    }
    sequence.insert(at - 1, BinopSequenceMember::NonBinop(merged));
    proof {
        let member = MemberView::NonBinop(merged_view);
        assert(sequence@ == earlier.insert(at - 1, sequence@[at - 1]));
        assert(sequence@[at - 1]@ == member);
        assert forall|i: int| 0 <= i < sequence@.len() implies members_of(sequence@)[i]
            == taken.insert(at - 1, member)[i] by {
            if i < at - 1 {
                assert(sequence@[i] == earlier[i]);
            } else if i > at - 1 {
                assert(sequence@[i] == earlier[i - 1]);
            }
        }
        assert(members_of(sequence@) =~= taken.insert(at - 1, member));
        assert(taken.insert(at - 1, member) =~= spliced(before, at as int, merged_view));
    }
}

/// Applies every operator of the given rank, left to right.
pub fn reduce_tier(sequence: Vec<BinopSequenceMember>, tier: Tier) -> (r: Result<
    Vec<BinopSequenceMember>,
    RollError,
>)
    requires
        tier != Tier::Dice,
        alternating(members_of(sequence@)),
    ensures
        match r {
            Ok(reduced) => tier_reduced(members_of(sequence@), tier) == Ok::<
                Seq<MemberView>,
                RollError,
            >(members_of(reduced@)) && alternating(members_of(reduced@)) && free_of(
                members_of(reduced@),
                tier,
            ) && forall|other: Tier| #[trigger]
                free_of(members_of(sequence@), other) ==> free_of(members_of(reduced@), other),
            Err(e) => tier_reduced(members_of(sequence@), tier) == Err::<
                Seq<MemberView>,
                RollError,
            >(e),
        },
{
    let ghost start = members_of(sequence@);
    let mut current = sequence;
    loop
        invariant
            tier != Tier::Dice,
            start == members_of(sequence@),
            alternating(members_of(current@)),
            tier_reduced(start, tier) == tier_reduced(members_of(current@), tier),
            forall|other: Tier| #[trigger]
                free_of(start, other) ==> free_of(members_of(current@), other),
        decreases current.len(),
    {
        let ghost before = members_of(current@);
        let at = position_of_tier(&current, tier);
        if at >= current.len() {
            proof {
                lemma_none_of_tier(before, tier, 0);
            }
            return Ok(current);
        }
        proof {
            assert(before.len() == current@.len());
            assert(before[at as int] is Binop);
            assert(at % 2 == 1);
            assert(at + 1 < before.len());
        }
        let (left, op, right) = take_triple(&mut current, at);
        match arithmetic_information(op, left, right) {
            Err(e) => {
                return Err(e);
            },
            Ok(merged) => {
                proof {
                    lemma_spliced(before, at as int, merged@);
                }
                put_merged(&mut current, at, merged, Ghost(before));
                proof {
                    assert(members_of(current@).len() == current@.len());
                }
            },
        }
    }
}

/// Applies every `*`, `/` and `%`, left to right.
pub fn handle_binop_sequence_times_divide_mod(sequence: Vec<BinopSequenceMember>) -> (r: Result<
    Vec<BinopSequenceMember>,
    RollError,
>)
    requires
        alternating(members_of(sequence@)),
    ensures
        match r {
            Ok(reduced) => tier_reduced(members_of(sequence@), Tier::Multiplicative) == Ok::<
                Seq<MemberView>,
                RollError,
            >(members_of(reduced@)) && alternating(members_of(reduced@)) && free_of(
                members_of(reduced@),
                Tier::Multiplicative,
            ) && forall|other: Tier| #[trigger]
                free_of(members_of(sequence@), other) ==> free_of(members_of(reduced@), other),
            Err(e) => tier_reduced(members_of(sequence@), Tier::Multiplicative) == Err::<
                Seq<MemberView>,
                RollError,
            >(e),
        },
{
    reduce_tier(sequence, Tier::Multiplicative)
}

/// Applies every `+` and `-`, left to right.
pub fn handle_binop_sequence_plus_minus(sequence: Vec<BinopSequenceMember>) -> (r: Result<
    Vec<BinopSequenceMember>,
    RollError,
>)
    requires
        alternating(members_of(sequence@)),
    ensures
        match r {
            Ok(reduced) => tier_reduced(members_of(sequence@), Tier::Additive) == Ok::<
                Seq<MemberView>,
                RollError,
            >(members_of(reduced@)) && alternating(members_of(reduced@)) && free_of(
                members_of(reduced@),
                Tier::Additive,
            ) && forall|other: Tier| #[trigger]
                free_of(members_of(sequence@), other) ==> free_of(members_of(reduced@), other),
            Err(e) => tier_reduced(members_of(sequence@), Tier::Additive) == Err::<
                Seq<MemberView>,
                RollError,
            >(e),
        },
{
    reduce_tier(sequence, Tier::Additive)
}

/// What a pass over a sequence returned, as the outcome that leaves `rest`
/// untouched.
pub open spec fn members_result(r: Result<Vec<BinopSequenceMember>, RollError>, rest: Seq<int>)
    -> Outcome<Seq<MemberView>> {
    match r {
        Ok(sequence) => Outcome::Done(members_of(sequence@), rest),
        Err(e) => Outcome::Failed(e),
    }
}

/// Rolls every `d`, left to right. On whatever faces might have followed
/// the faces drawn, the sequence comes out of its dice as it did here.
pub fn handle_binop_sequence_dice(sequence: Vec<BinopSequenceMember>, dice: &mut DiceSource) -> (r:
    Result<Vec<BinopSequenceMember>, RollError>)
    requires
        old(dice).wf(),
        alternating(members_of(sequence@)),
    ensures
        final(dice).continues(old(dice)),
        forall|rest: Seq<int>| #[trigger]
            dice_reduced(members_of(sequence@), final(dice).drawn_since(old(dice)) + rest)
                == members_result(r, rest),
        r matches Ok(reduced) ==> alternating(members_of(reduced@)) && free_of(
            members_of(reduced@),
            Tier::Dice,
        ) && forall|other: Tier| #[trigger]
            free_of(members_of(sequence@), other) ==> free_of(members_of(reduced@), other),
{
    let ghost start = members_of(sequence@);
    let ghost first = *dice;
    let mut current = sequence;
    proof {
        assert(dice.drawn_since(&first) =~= Seq::<int>::empty());
        assert forall|rest: Seq<int>| dice.drawn_since(&first) + rest == rest by {
            assert(dice.drawn_since(&first) + rest =~= rest);
        }
    }
    loop
        invariant
            start == members_of(sequence@),
            first == *old(dice),
            dice.continues(&first),
            alternating(members_of(current@)),
            forall|rest: Seq<int>| #[trigger]
                dice_reduced(start, dice.drawn_since(&first) + rest) == dice_reduced(
                    members_of(current@),
                    rest,
                ),
            forall|other: Tier| #[trigger]
                free_of(start, other) ==> free_of(members_of(current@), other),
        decreases current.len(),
    {
        let ghost before = members_of(current@);
        let ghost second = *dice;
        let at = position_of_tier(&current, Tier::Dice);
        if at >= current.len() {
            proof {
                lemma_none_of_tier(before, Tier::Dice, 0);
            }
            return Ok(current);
        }
        proof {
            assert(before.len() == current@.len());
            assert(before[at as int] is Binop);
            assert(at % 2 == 1);
            assert(at + 1 < before.len());
        }
        let (left, _, right) = take_triple(&mut current, at);
        let ghost left_view = left@;
        let ghost right_view = right@;
        let rolled = roll_dice(left.value, right.value, dice);
        proof {
            lemma_drawn_since(&first, &second, dice);
            let made = second.drawn_since(&first);
            let step = dice.drawn_since(&second);
            assert forall|rest: Seq<int>| #[trigger]
                dice_reduced(start, dice.drawn_since(&first) + rest) == dice_reduced(
                    before,
                    step + rest,
                ) by {
                assert(dice.drawn_since(&first) + rest =~= made + (step + rest));
            }
        }
        match rolled {
            Err(e) => {
                proof {
                    assert forall|rest: Seq<int>| #[trigger]
                        dice_reduced(start, dice.drawn_since(&first) + rest) == Outcome::<
                            Seq<MemberView>,
                        >::Failed(e) by {
                        let step = dice.drawn_since(&second);
                        assert(roll_outcome(left_view.value, right_view.value, step + rest)
                            == Outcome::<(Dec, Seq<Dec>)>::Failed(e));
                    }
                }
                return Err(e);
            },
            Ok((sum, faces)) => {
                let ghost faces_view = faces@;
                let merged = dice_information(left, right, sum, faces);
                proof {
                    lemma_spliced(before, at as int, merged@);
                }
                put_merged(&mut current, at, merged, Ghost(before));
                proof {
                    assert(members_of(current@).len() == current@.len());
                    assert forall|rest: Seq<int>| #[trigger]
                        dice_reduced(start, dice.drawn_since(&first) + rest) == dice_reduced(
                            members_of(current@),
                            rest,
                        ) by {
                        let step = dice.drawn_since(&second);
                        assert(roll_outcome(left_view.value, right_view.value, step + rest)
                            == Outcome::Done((sum, faces_view), rest));
                    }
                }
            },
        }
    }
}

/// What an evaluation returned, as the outcome that leaves `rest`
/// untouched.
pub open spec fn info_result(r: Result<RollInformation, RollError>, rest: Seq<int>) -> Outcome<
    RollView,
> {
    match r {
        Ok(info) => Outcome::Done(info@, rest),
        Err(e) => Outcome::Failed(e),
    }
}

/// A sequence in which operands and operators take turns and no operator
/// is left holds one operand.
pub proof fn lemma_reduced_is_single(members: Seq<MemberView>)
    requires
        alternating(members),
        free_of(members, Tier::Dice),
        free_of(members, Tier::Multiplicative),
        free_of(members, Tier::Additive),
    ensures
        members.len() == 1,
        members[0] is NonBinop,
{
    if members.len() >= 3 {
        let op = operator(members, 1);
        assert(members[1] is Binop);
        assert(is_of_tier(members[1], tier_of(op)));
    }
    assert(members[0] is NonBinop);
}

/// The result of a sequence whose operands have their values: the dice
/// first, then `*`, `/` and `%`, then `+` and `-`.
pub fn handle_binop_sequence(sequence: Vec<BinopSequenceMember>, dice: &mut DiceSource) -> (r:
    Result<RollInformation, RollError>)
    requires
        old(dice).wf(),
        alternating(members_of(sequence@)),
    ensures
        final(dice).continues(old(dice)),
        forall|rest: Seq<int>| #[trigger]
            sequence_outcome(members_of(sequence@), final(dice).drawn_since(old(dice)) + rest)
                == info_result(r, rest),
        r matches Ok(info) ==> info@.wf(),
{
    let dice_handled = match handle_binop_sequence_dice(sequence, dice) {
        Ok(reduced) => reduced,
        Err(e) => {
            return Err(e);
        },
    };
    let ghost rolled = members_of(dice_handled@);
    let times_divide_mod_handled = match handle_binop_sequence_times_divide_mod(dice_handled) {
        Ok(reduced) => reduced,
        Err(e) => {
            return Err(e);
        },
    };
    let ghost multiplied = members_of(times_divide_mod_handled@);
    let mut plus_minus_handled = match handle_binop_sequence_plus_minus(
        times_divide_mod_handled,
    ) {
        Ok(reduced) => reduced,
        Err(e) => {
            return Err(e);
        },
    };
    let ghost added = members_of(plus_minus_handled@);
    proof {
        assert(free_of(rolled, Tier::Dice));
        assert(free_of(multiplied, Tier::Dice));
        assert(free_of(multiplied, Tier::Multiplicative));
        assert(free_of(added, Tier::Dice));
        assert(free_of(added, Tier::Multiplicative));
        lemma_reduced_is_single(added);
        assert(added.len() == plus_minus_handled@.len());
        assert(added[0] == plus_minus_handled@[0]@);
    }
    let last = plus_minus_handled.remove(0);
    Ok(take_operand(last))
}

/// The result of an atom. On whatever faces might have followed the faces
/// drawn, the atom comes to what it came to here.
pub fn evaluate_atom(atom: &Atom, dice: &mut DiceSource) -> (r: Result<RollInformation, RollError>)
    requires
        old(dice).wf(),
        atom@.wf(),
    ensures
        final(dice).continues(old(dice)),
        forall|rest: Seq<int>| #[trigger]
            atom_outcome(atom@, final(dice).drawn_since(old(dice)) + rest) == info_result(r, rest),
        r matches Ok(info) ==> info@.wf(),
    decreases atom, 0nat,
{
    match atom {
        Atom::Number(text) => {
            let r = match Dec::from_text(text.as_str()) {
                Some(value) => Ok(number_information(value, text.clone())),
                None => Err(RollError::LiteralOutOfRange),
            };
            proof {
                assert(atom@ == AtomView::Number(text@));
                assert forall|rest: Seq<int>| #[trigger]
                    atom_outcome(atom@, dice.drawn_since(old(dice)) + rest) == info_result(
                        r,
                        rest,
                    ) by {
                    assert(dice.drawn_since(old(dice)) + rest =~= rest);
                }
            }
            r
        },
        Atom::Group(chain) => {
            let found = evaluate_chain(chain, dice);
            let ghost made = dice.drawn_since(old(dice));
            let r = match found {
                Ok(inner) => Ok(group_information(inner)),
                Err(e) => Err(e),
            };
            proof {
                assert(atom@ == AtomView::Group(Box::new(chain@)));
                assert forall|rest: Seq<int>| #[trigger]
                    atom_outcome(atom@, made + rest) == info_result(r, rest) by {
                    assert(chain_outcome(chain@, made + rest) == info_result(found, rest));
                }
            }
            r
        },
    }
}

/// The result of an operand. On whatever faces might have followed the
/// faces drawn, the operand comes to what it came to here.
pub fn evaluate_operand(item: &Operand, dice: &mut DiceSource) -> (r: Result<
    RollInformation,
    RollError,
>)
    requires
        old(dice).wf(),
        item@.wf(),
    ensures
        final(dice).continues(old(dice)),
        forall|rest: Seq<int>| #[trigger]
            operand_outcome(item@, final(dice).drawn_since(old(dice)) + rest) == info_result(
                r,
                rest,
            ),
        r matches Ok(info) ==> info@.wf(),
    decreases item, 0nat,
{
    match item {
        Operand::Plain(atom) => {
            let r = evaluate_atom(atom, dice);
            proof {
                assert(item@ == OperandView::Plain(atom@));
                assert forall|rest: Seq<int>| #[trigger]
                    operand_outcome(item@, dice.drawn_since(old(dice)) + rest) == info_result(
                        r,
                        rest,
                    ) by {
                    assert(atom_outcome(atom@, dice.drawn_since(old(dice)) + rest) == info_result(
                        r,
                        rest,
                    ));
                }
            }
            r
        },
        Operand::Signed(sign, atom) => {
            let found = evaluate_atom(atom, dice);
            let ghost made = dice.drawn_since(old(dice));
            match found {
                Ok(inner) => {
                    let ghost inner_view = inner@;
                    let r = Ok(signed_information(*sign, inner));
                    proof {
                        assert(item@ == OperandView::Signed(*sign, atom@));
                        assert forall|rest: Seq<int>| #[trigger]
                            operand_outcome(item@, made + rest) == info_result(r, rest) by {
                            assert(atom_outcome(atom@, made + rest) == Outcome::Done(
                                inner_view,
                                rest,
                            ));
                        }
                    }
                    r
                },
                Err(e) => {
                    proof {
                        assert(item@ == OperandView::Signed(*sign, atom@));
                        assert forall|rest: Seq<int>| #[trigger]
                            operand_outcome(item@, made + rest) == Outcome::<RollView>::Failed(
                                e,
                            ) by {
                            assert(atom_outcome(atom@, made + rest) == Outcome::<
                                RollView,
                            >::Failed(e));
                        }
                    }
                    Err(e)
                },
            }
        },
    }
}

/// The operands of a sequence with their values, left to right, and its
/// operators.
pub fn evaluate_members(chain: &Chain, dice: &mut DiceSource) -> (r: Result<
    Vec<BinopSequenceMember>,
    RollError,
>)
    requires
        old(dice).wf(),
        chain@.wf(),
    ensures
        final(dice).continues(old(dice)),
        forall|rest: Seq<int>| #[trigger]
            members_outcome(chain@, final(dice).drawn_since(old(dice)) + rest) == members_result(
                r,
                rest,
            ),
        r matches Ok(members) ==> alternating(members_of(members@)),
    decreases chain, 0nat,
{
    let ghost first = *dice;
    match chain {
        Chain::Single(item) => {
            let found = evaluate_operand(item, dice);
            let ghost made = dice.drawn_since(&first);
            let r = match found {
                Ok(info) => {
                    let ghost info_view = info@;
                    let mut members: Vec<BinopSequenceMember> = Vec::new();
                    members.push(BinopSequenceMember::NonBinop(info));
                    proof {
                        assert(members_of(members@) =~= seq![MemberView::NonBinop(info_view)]);
                    }
                    Ok(members)
                },
                Err(e) => Err(e),
            };
            proof {
                assert(chain@ == ChainView::Single(item@));
                assert forall|rest: Seq<int>| #[trigger]
                    members_outcome(chain@, made + rest) == members_result(r, rest) by {
                    assert(operand_outcome(item@, made + rest) == info_result(found, rest));
                }
            }
            r
        },
        Chain::Link(item, op, others) => {
            let info = match evaluate_operand(item, dice) {
                Ok(info) => info,
                Err(e) => {
                    proof {
                        let made = dice.drawn_since(&first);
                        assert(chain@ == ChainView::Link(item@, *op, Box::new(others@)));
                        assert forall|rest: Seq<int>| #[trigger]
                            members_outcome(chain@, made + rest) == Outcome::<
                                Seq<MemberView>,
                            >::Failed(e) by {
                            assert(operand_outcome(item@, made + rest) == Outcome::<
                                RollView,
                            >::Failed(e));
                        }
                    }
                    return Err(e);
                },
            };
            let ghost second = *dice;
            let ghost info_view = info@;
            let found = evaluate_members(others, dice);
            proof {
                lemma_drawn_since(&first, &second, dice);
                let made = second.drawn_since(&first);
                let step = dice.drawn_since(&second);
                assert(chain@ == ChainView::Link(item@, *op, Box::new(others@)));
                assert forall|rest: Seq<int>| #[trigger]
                    members_outcome(chain@, dice.drawn_since(&first) + rest) == match found {
                        Ok(members) => Outcome::Done(
                            seq![MemberView::NonBinop(info_view), MemberView::Binop(*op)]
                                + members_of(members@),
                            rest,
                        ),
                        Err(e) => Outcome::Failed(e),
                    } by {
                    assert(dice.drawn_since(&first) + rest =~= made + (step + rest));
                    assert(operand_outcome(item@, made + (step + rest)) == Outcome::Done(
                        info_view,
                        step + rest,
                    ));
                    assert(members_outcome(others@, step + rest) == members_result(found, rest));
                }
            }
            match found {
                Ok(mut rest_members) => {
                    let ghost tail = members_of(rest_members@);
                    let mut members: Vec<BinopSequenceMember> = Vec::new();
                    members.push(BinopSequenceMember::NonBinop(info));
                    members.push(BinopSequenceMember::Binop(*op));
                    members.append(&mut rest_members);
                    proof {
                        let all = members_of(members@);
                        assert(all =~= seq![
                            MemberView::NonBinop(info_view),
                            MemberView::Binop(*op),
                        ] + tail);
                        assert forall|i: int| 0 <= i < all.len() implies match #[trigger] all[i] {
                            MemberView::NonBinop(info) => i % 2 == 0 && info.wf(),
                            MemberView::Binop(_) => i % 2 == 1,
                        } by {
                            if i >= 2 {
                                assert(all[i] == tail[i - 2]);
                            }
                        }
                    }
                    Ok(members)
                },
                Err(e) => Err(e),
            }
        },
    }
}

/// The result of a sequence. On whatever faces might have followed the
/// faces drawn, the sequence comes to what it came to here.
pub fn evaluate_chain(chain: &Chain, dice: &mut DiceSource) -> (r: Result<
    RollInformation,
    RollError,
>)
    requires
        old(dice).wf(),
        chain@.wf(),
    ensures
        final(dice).continues(old(dice)),
        forall|rest: Seq<int>| #[trigger]
            chain_outcome(chain@, final(dice).drawn_since(old(dice)) + rest) == info_result(
                r,
                rest,
            ),
        r matches Ok(info) ==> info@.wf(),
    decreases chain, 1nat,
{
    let ghost first = *dice;
    let members = match evaluate_members(chain, dice) {
        Ok(members) => members,
        Err(e) => {
            proof {
                let made = dice.drawn_since(&first);
                assert forall|rest: Seq<int>| #[trigger]
                    chain_outcome(chain@, made + rest) == Outcome::<RollView>::Failed(e) by {
                    assert(members_outcome(chain@, made + rest) == Outcome::<
                        Seq<MemberView>,
                    >::Failed(e));
                }
            }
            return Err(e);
        },
    };
    let ghost second = *dice;
    let ghost members_view = members_of(members@);
    let r = handle_binop_sequence(members, dice);
    proof {
        lemma_drawn_since(&first, &second, dice);
        let made = second.drawn_since(&first);
        let step = dice.drawn_since(&second);
        assert forall|rest: Seq<int>| #[trigger]
            chain_outcome(chain@, dice.drawn_since(&first) + rest) == info_result(r, rest) by {
            assert(dice.drawn_since(&first) + rest =~= made + (step + rest));
            assert(members_outcome(chain@, made + (step + rest)) == Outcome::Done(
                members_view,
                step + rest,
            ));
            assert(sequence_outcome(members_view, step + rest) == info_result(r, rest));
        }
    }
    r
}

} // verus!
