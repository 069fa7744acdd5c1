//! Rolling dice: where the faces come from, and how a group of dice is
//! checked, rolled and summed.

use crate::decimal::{Dec, MAX_MANTISSA};
use crate::error::RollError;
use rand::Rng;
use vstd::prelude::*;

verus! {

/// How a computation that draws faces ends on a given run of faces: with a
/// result and the faces it left untouched, with an error, or stuck because
/// the run holds no legal face where one is drawn.
pub enum Outcome<T> {
    Done(T, Seq<int>),
    Failed(RollError),
    Stuck,
}

/// Calls `Rng::gen_range` on the generator of the running thread, with the
/// inclusive range from 1 to `sides`. The contract claims only that the face
/// drawn lies in that range; an empty range is left out, as the call panics
/// on it.
#[verifier::external_body]
pub(crate) fn thread_roll(sides: i128) -> (r: i128)
    requires
        1 <= sides,
    ensures
        1 <= r <= sides,
{
    rand::thread_rng().gen_range(1..=sides)
}

/// The face that a script gives to the draw number `at` of a die with
/// `sides` sides: the scripted one where it is a face of that die, and the
/// lowest face otherwise.
pub open spec fn scripted_face(script: Seq<i128>, at: nat, sides: int) -> int {
    if at < script.len() && 1 <= script[at as int] <= sides {
        script[at as int] as int
    } else {
        1
    }
}

/// Where faces come from: the random generator of the running thread, or a
/// script that makes every draw repeatable.
pub struct DiceSource {
    faces: Vec<i128>,
    next: usize,
    scripted: bool,
    drawn: Ghost<Seq<int>>,
}

impl DiceSource {
    /// Every face drawn from this source so far, oldest first.
    pub closed spec fn drawn(&self) -> Seq<int> {
        self.drawn@
    }

    /// Whether the faces come from a script.
    pub closed spec fn is_scripted(&self) -> bool {
        self.scripted
    }

    /// The script; empty for a random source.
    pub closed spec fn script(&self) -> Seq<i128> {
        self.faces@
    }

    /// The source has kept count of its draws.
    pub closed spec fn wf(&self) -> bool {
        &&& !self.scripted ==> self.faces@.len() == 0
        &&& self.next as nat == if self.drawn@.len() < self.faces@.len() {
            self.drawn@.len()
        } else {
            self.faces@.len()
        }
    }

    /// This source is `earlier` after some more draws.
    pub open spec fn continues(&self, earlier: &DiceSource) -> bool {
        &&& self.wf()
        &&& self.is_scripted() == earlier.is_scripted()
        &&& self.script() == earlier.script()
        &&& earlier.drawn().is_prefix_of(self.drawn())
    }

    /// The faces drawn since the source was `earlier`, oldest first.
    pub open spec fn drawn_since(&self, earlier: &DiceSource) -> Seq<int> {
        self.drawn().skip(earlier.drawn().len() as int)
    }

    /// A source that draws from the random generator of the running thread.
    pub fn random() -> (r: DiceSource)
        ensures
            r.wf(),
            !r.is_scripted(),
            r.drawn() == Seq::<int>::empty(),
    {
        DiceSource { faces: Vec::new(), next: 0, scripted: false, drawn: Ghost(Seq::empty()) }
    }

    /// A source that draws the faces of `faces` in order.
    pub fn scripted(faces: Vec<i128>) -> (r: DiceSource)
        ensures
            r.wf(),
            r.is_scripted(),
            r.script() == faces@,
            r.drawn() == Seq::<int>::empty(),
    {
        DiceSource { faces, next: 0, scripted: true, drawn: Ghost(Seq::empty()) }
    }

    /// Draws one face of a die with `sides` sides.
    pub fn draw(&mut self, sides: i128) -> (r: i128)
        requires
            old(self).wf(),
            1 <= sides,
        ensures
            final(self).wf(),
            1 <= r <= sides,
            final(self).drawn() == old(self).drawn().push(r as int),
            final(self).is_scripted() == old(self).is_scripted(),
            final(self).script() == old(self).script(),
            old(self).is_scripted() ==> r == scripted_face(
                old(self).script(),
                old(self).drawn().len(),
                sides as int,
            ),
    {
        let mut face: i128 = 1;
        if !self.scripted {
            face = thread_roll(sides);
        } else if self.next < self.faces.len() {
            let scripted: i128 = self.faces[self.next];
            if 1 <= scripted && scripted <= sides {
                face = scripted;
            }
            self.next = self.next + 1;
        }
        self.drawn = Ghost(self.drawn@.push(face as int));
        face
    }
}

/// The error, if any, that keeps `count` dice of `sides` sides from being
/// rolled. The count is looked at first for being whole, then the sides;
/// then the count for its sign, then the sides.
pub open spec fn dice_fault(count: Dec, sides: Dec) -> Option<RollError> {
    if !count.is_integral() {
        Some(RollError::NonIntegerCount)
    } else if !sides.is_integral() {
        Some(RollError::NonIntegerSides)
    } else if count.whole_value() < 0 {
        Some(RollError::NegativeCount)
    } else if sides.whole_value() <= 0 {
        Some(RollError::NonPositiveSides)
    } else {
        None
    }
}

/// Rolling what is left of a group of dice: `left` more dice of `sides`
/// sides, after dice that summed to `sum` and showed `rolls`. Each die takes
/// the first face of `tape`; the group fails as soon as its sum no longer
/// fits in a decimal.
pub open spec fn draws_outcome(left: int, sides: int, sum: int, rolls: Seq<Dec>, tape: Seq<int>)
    -> Outcome<(Dec, Seq<Dec>)>
    decreases left,
{
    if left <= 0 {
        Outcome::Done((Dec::whole(sum), rolls), tape)
    } else if tape.len() == 0 || !(1 <= tape[0] <= sides) {
        Outcome::Stuck
    } else if sum + tape[0] > MAX_MANTISSA {
        Outcome::Failed(RollError::Overflow)
    } else {
        draws_outcome(left - 1, sides, sum + tape[0], rolls.push(Dec::whole(tape[0])), tape.skip(1))
    }
}

/// Rolling `count` dice of `sides` sides on the faces of `tape`: the sum
/// and the faces in the order drawn.
pub open spec fn roll_outcome(count: Dec, sides: Dec, tape: Seq<int>) -> Outcome<(Dec, Seq<Dec>)> {
    match dice_fault(count, sides) {
        Some(e) => Outcome::Failed(e),
        None => draws_outcome(
            count.whole_value(),
            sides.whole_value(),
            0,
            Seq::<Dec>::empty(),
            tape,
        ),
    }
}

/// What a roll returned, as the outcome that leaves `rest` untouched.
pub open spec fn roll_result(r: Result<(Dec, Vec<Dec>), RollError>, rest: Seq<int>) -> Outcome<
    (Dec, Seq<Dec>),
> {
    match r {
        Ok((sum, rolls)) => Outcome::Done((sum, rolls@), rest),
        Err(e) => Outcome::Failed(e),
    }
}

/// Rolls one die of `sides` sides.
pub fn roll_die(sides: i128, dice: &mut DiceSource) -> (r: Dec)
    requires
        old(dice).wf(),
        1 <= sides <= MAX_MANTISSA,
    ensures
        final(dice).wf(),
        r.scale == 0,
        1 <= r.mantissa <= sides,
        final(dice).drawn() == old(dice).drawn().push(r.mantissa as int),
        final(dice).is_scripted() == old(dice).is_scripted(),
        final(dice).script() == old(dice).script(),
        old(dice).is_scripted() ==> r.mantissa == scripted_face(
            old(dice).script(),
            old(dice).drawn().len(),
            sides as int,
        ),
{
    let face = dice.draw(sides);
    Dec::from_whole(face)
}

/// Rolls `number` dice of `sides` sides and sums them. The faces drawn are
/// added to the source's record; on whatever faces might have followed
/// them, rolling the group on the faces drawn ends as this call did.
pub fn roll_dice(number: Dec, sides: Dec, dice: &mut DiceSource) -> (r: Result<
    (Dec, Vec<Dec>),
    RollError,
>)
    requires
        old(dice).wf(),
        number.wf(),
        sides.wf(),
    ensures
        final(dice).continues(old(dice)),
        forall|rest: Seq<int>| #[trigger]
            roll_outcome(number, sides, final(dice).drawn_since(old(dice)) + rest) == roll_result(
                r,
                rest,
            ),
        r matches Ok((sum, rolls)) ==> sum.wf() && forall|i: int|
            0 <= i < rolls@.len() ==> (#[trigger] rolls@[i]).wf(),
{
    let ghost before = dice.drawn();
    let count_whole = number.to_whole();
    let sides_whole = sides.to_whole();
    if count_whole.is_none() {
        return Err(RollError::NonIntegerCount);
    }
    if sides_whole.is_none() {
        return Err(RollError::NonIntegerSides);
    }
    let count: i128 = count_whole.unwrap();
    let faces: i128 = sides_whole.unwrap();
    if count < 0 {
        return Err(RollError::NegativeCount);
    }
    if faces <= 0 {
        return Err(RollError::NonPositiveSides);
    }
    let mut sum = Dec::from_whole(0);
    let mut rolls: Vec<Dec> = Vec::new();
    let mut rolled: i128 = 0;
    let ghost mut made = Seq::<int>::empty();
    proof {
        assert(before + made =~= before);
        assert forall|rest: Seq<int>| made + rest == rest by {
            assert(made + rest =~= rest);
        }
    }
    while rolled < count
        invariant
            dice.wf(),
            dice.is_scripted() == old(dice).is_scripted(),
            dice.script() == old(dice).script(),
            dice.drawn() == before + made,
            before == old(dice).drawn(),
            0 <= rolled <= count <= MAX_MANTISSA,
            1 <= faces <= MAX_MANTISSA,
            count == number.whole_value(),
            faces == sides.whole_value(),
            dice_fault(number, sides).is_none(),
            sum.scale == 0,
            0 <= sum.mantissa <= MAX_MANTISSA,
            forall|i: int| 0 <= i < rolls@.len() ==> (#[trigger] rolls@[i]).wf(),
            forall|rest: Seq<int>| #[trigger]
                draws_outcome(count as int, faces as int, 0, Seq::<Dec>::empty(), made + rest)
                    == draws_outcome(
                    count - rolled,
                    faces as int,
                    sum.mantissa as int,
                    rolls@,
                    rest,
                ),
        decreases count - rolled,
    {
        let roll = roll_die(faces, dice);
        let ghost earlier = made;
        proof {
            made = made.push(roll.mantissa as int);
            assert(before + made =~= (before + earlier).push(roll.mantissa as int));
            assert forall|rest: Seq<int>| earlier + (seq![roll.mantissa as int] + rest) == made
                + rest by {
                assert(earlier + (seq![roll.mantissa as int] + rest) =~= made + rest);
            }
            assert forall|rest: Seq<int>| (seq![roll.mantissa as int] + rest).skip(1) == rest by {
                assert((seq![roll.mantissa as int] + rest).skip(1) =~= rest);
            }
        }
        match sum.checked_add(roll) {
            Some(total) => {
                proof {
                    assert forall|rest: Seq<int>| #[trigger]
                        draws_outcome(
                            count as int,
                            faces as int,
                            0,
                            Seq::<Dec>::empty(),
                            made + rest,
                        ) == draws_outcome(
                            count - (rolled + 1),
                            faces as int,
                            total.mantissa as int,
                            rolls@.push(roll),
                            rest,
                        ) by {
                        let tape = seq![roll.mantissa as int] + rest;
                        assert(earlier + tape == made + rest);
                        assert(tape[0] == roll.mantissa);
                        assert(tape.skip(1) == rest);
                        assert(roll == Dec::whole(tape[0]));
                    }
                }
                sum = total;
                rolls.push(roll);
                rolled = rolled + 1;
            },
            None => {
                proof {
                    assert(dice.drawn().skip(before.len() as int) =~= made);
                    assert forall|rest: Seq<int>| #[trigger]
                        roll_outcome(number, sides, made + rest) == Outcome::<
                            (Dec, Seq<Dec>),
                        >::Failed(RollError::Overflow) by {
                        let tape = seq![roll.mantissa as int] + rest;
                        assert(earlier + tape == made + rest);
                        assert(tape[0] == roll.mantissa);
                        assert(draws_outcome(
                            count as int,
                            faces as int,
                            0,
                            Seq::<Dec>::empty(),
                            earlier + tape,
                        ) == draws_outcome(
                            count - rolled,
                            faces as int,
                            sum.mantissa as int,
                            rolls@,
                            tape,
                        ));
                    }
                }
                return Err(RollError::Overflow);
            },
        }
    }
    proof {
        assert(dice.drawn().skip(before.len() as int) =~= made);
    }
    Ok((sum, rolls))
}

/// Draws made in two stretches are the draws of the first stretch followed
/// by those of the second.
pub proof fn lemma_drawn_since(first: &DiceSource, second: &DiceSource, third: &DiceSource)
    requires
        second.continues(first),
        third.continues(second),
    ensures
        third.continues(first),
        third.drawn_since(first) == second.drawn_since(first) + third.drawn_since(second),
{
    assert(third.drawn_since(first) =~= second.drawn_since(first) + third.drawn_since(second));
}

} // verus!
